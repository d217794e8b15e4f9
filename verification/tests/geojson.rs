use nori::geo::GeoPoint;
use nori::geojson_writer::{format_number, GeoJsonWriter};
use nori::network::{Network, Node, NodeId, OsmNodeId};

#[test]
fn empty_collection() {
    let writer = GeoJsonWriter::new();
    assert_eq!(writer.finish(), "{\"type\": \"FeatureCollection\", \"features\": [\n]}");
}

#[test]
fn line_string_with_properties() {
    let mut writer = GeoJsonWriter::new();
    {
        let mut ls = writer
            .add_line_string(&[GeoPoint::new(52_500_000, 13_400_000), GeoPoint::new(-1, -1_234_567)]);
        ls.add_property("number", "7");
        ls.add_property("length", "12.5");
        ls.finish();
    }
    assert_eq!(
        writer.finish(),
        "{\"type\": \"FeatureCollection\", \"features\": [\n\
         {\"type\": \"Feature\", \"geometry\": {\"type\": \"LineString\", \"coordinates\": \
         [[13.400000, 52.500000],[-1.234567, -0.000001]]}, \
         \"properties\": {\"number\": 7,\"length\": 12.5}}\n]}"
    );
}

#[test]
fn point_feature() {
    let mut writer = GeoJsonWriter::new();
    {
        let mut p = writer.add_point(GeoPoint::new(90_000_000, -180_000_000));
        p.add_property("diff", "-3");
        p.finish();
    }
    assert_eq!(
        writer.finish(),
        "{\"type\": \"FeatureCollection\", \"features\": [\n\
         {\"type\": \"Feature\", \"geometry\": {\"type\": \"Point\", \"coordinates\": \
         [-180.000000, 90.000000]}, \"properties\": {\"diff\": -3}}\n]}"
    );
}

#[test]
fn features_are_separated_by_commas() {
    let mut writer = GeoJsonWriter::new();
    writer.add_point(GeoPoint::new(0, 0)).finish();
    writer.add_point(GeoPoint::new(1_000_000, 2_000_000)).finish();
    writer.add_line_string(&[]).finish();
    assert_eq!(
        writer.finish(),
        "{\"type\": \"FeatureCollection\", \"features\": [\n\
         {\"type\": \"Feature\", \"geometry\": {\"type\": \"Point\", \"coordinates\": \
         [0.000000, 0.000000]}, \"properties\": {}},\n\
         {\"type\": \"Feature\", \"geometry\": {\"type\": \"Point\", \"coordinates\": \
         [2.000000, 1.000000]}, \"properties\": {}},\n\
         {\"type\": \"Feature\", \"geometry\": {\"type\": \"LineString\", \"coordinates\": \
         []}, \"properties\": {}}\n]}"
    );
}

#[test]
fn unfinished_feature_is_closed_by_what_follows() {
    let mut writer = GeoJsonWriter::new();
    {
        let mut p = writer.add_point(GeoPoint::new(0, 0));
        p.add_property("a", "1");
    }
    writer.add_point(GeoPoint::new(0, 0)).finish();
    let first = writer.finish();

    let mut writer = GeoJsonWriter::new();
    {
        let mut p = writer.add_point(GeoPoint::new(0, 0));
        p.add_property("a", "1");
        p.finish();
    }
    writer.add_point(GeoPoint::new(0, 0)).finish();
    assert_eq!(first, writer.finish());

    let mut writer = GeoJsonWriter::new();
    {
        let mut p = writer.add_point(GeoPoint::new(0, 0));
        p.add_property("a", "1");
    }
    assert!(writer.finish().ends_with("\"properties\": {\"a\": 1}}\n]}"));
}

#[test]
fn coordinates_have_six_decimal_digits() {
    let cases: [(i32, &str); 8] = [
        (0, "0.000000"),
        (5, "0.000005"),
        (-5, "-0.000005"),
        (1_000_000, "1.000000"),
        (-999_999, "-0.999999"),
        (123_456_789, "123.456789"),
        (i32::MAX, "2147.483647"),
        (i32::MIN, "-2147.483648"),
    ];
    for (raw, text) in cases {
        let mut writer = GeoJsonWriter::new();
        writer.add_point(GeoPoint::new(0, raw)).finish();
        let out = writer.finish();
        assert!(out.contains(&format!("[{}, 0.000000]", text)), "{} in {}", text, out);
        // the same digits that the formatting of a float gives
        assert_eq!(format!("{:.6}", raw as f64 * 1e-6), text);
    }
}

#[test]
fn numbers_in_decimal() {
    assert_eq!(format_number(0), "0");
    assert_eq!(format_number(7), "7");
    assert_eq!(format_number(10), "10");
    assert_eq!(format_number(1234567890), "1234567890");
    assert_eq!(format_number(u64::MAX), "18446744073709551615");
}

#[test]
fn network_as_geojson_holds_only_counted_edges() {
    let nodes = vec![
        Node::new(OsmNodeId(1), 1_000_000, 2_000_000),
        Node::new(OsmNodeId(2), 3_000_000, 4_000_000),
        Node::new(OsmNodeId(3), 5_000_000, 6_000_000),
    ];
    let edges = vec![(NodeId(0), NodeId(1)), (NodeId(1), NodeId(2)), (NodeId(2), NodeId(0))];
    let mut net = Network::from_entries(&nodes, &edges).unwrap();
    assert_eq!(
        net.write_to_geojson(),
        "{\"type\": \"FeatureCollection\", \"features\": [\n]}"
    );
    net.bump_edges(&[OsmNodeId(2), OsmNodeId(3), OsmNodeId(1)]);
    net.bump_edges(&[OsmNodeId(1), OsmNodeId(3)]);
    assert_eq!(
        net.write_to_geojson(),
        "{\"type\": \"FeatureCollection\", \"features\": [\n\
         {\"type\": \"Feature\", \"geometry\": {\"type\": \"LineString\", \"coordinates\": \
         [[4.000000, 3.000000],[6.000000, 5.000000]]}, \"properties\": {\"number\": 1}},\n\
         {\"type\": \"Feature\", \"geometry\": {\"type\": \"LineString\", \"coordinates\": \
         [[6.000000, 5.000000],[2.000000, 1.000000]]}, \"properties\": {\"number\": 2}}\n]}"
    );
}

#[test]
fn written_text_is_valid_json() {
    let nodes = vec![Node::new(OsmNodeId(1), 10, 20), Node::new(OsmNodeId(2), -30, -40)];
    let edges = vec![(NodeId(0), NodeId(1))];
    let mut net = Network::from_entries(&nodes, &edges).unwrap();
    net.bump_edges(&[OsmNodeId(1), OsmNodeId(2)]);
    let value: serde_json::Value = serde_json::from_str(&net.write_to_geojson()).unwrap();
    assert_eq!(value["type"], "FeatureCollection");
    assert_eq!(value["features"][0]["properties"]["number"], 1);
    assert_eq!(value["features"][0]["geometry"]["coordinates"][1][0], -0.00004);
}
