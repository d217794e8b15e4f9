use nori::geo::{BoundingBox, BoundingBox3035, GeoPoint, Place, ProjPoint};

#[test]
fn bounding_box_contains_its_points() {
    let b = BoundingBox::new(GeoPoint::new(-10, -20), GeoPoint::new(30, 40));
    assert!(b.is_inside(GeoPoint::new(0, 0)));
    assert!(b.is_inside(GeoPoint::new(-10, -20)));
    assert!(b.is_inside(GeoPoint::new(30, 40)));
    assert!(b.is_inside(GeoPoint::new(-10, 40)));
    assert!(!b.is_inside(GeoPoint::new(-11, 0)));
    assert!(!b.is_inside(GeoPoint::new(31, 0)));
    assert!(!b.is_inside(GeoPoint::new(0, -21)));
    assert!(!b.is_inside(GeoPoint::new(0, 41)));
}

#[test]
fn bounding_box_does_not_wrap_the_meridian() {
    let b = BoundingBox::new(GeoPoint::new(0, 170_000_000), GeoPoint::new(10, -170_000_000));
    assert!(!b.is_inside(GeoPoint::new(5, 175_000_000)));
    assert!(!b.is_inside(GeoPoint::new(5, 0)));
}

#[test]
fn corners_of_a_bounding_box() {
    let b = BoundingBox::new(GeoPoint::new(1, 2), GeoPoint::new(3, 4));
    let c = b.corners();
    assert_eq!(c.sw, GeoPoint::new(1, 2));
    assert_eq!(c.ne, GeoPoint::new(3, 4));
    assert_eq!(c.se, GeoPoint::new(1, 4));
    assert_eq!(c.nw, GeoPoint::new(3, 2));
}

#[test]
fn projected_bounds_enclose_all_four_corners() {
    // a box whose sides the projection has bent: the north-west corner lies
    // west of the south-west corner, the south-east corner south of it
    let sw = ProjPoint::new(100, 200);
    let ne = ProjPoint::new(900, 1000);
    let se = ProjPoint::new(950, 150);
    let nw = ProjPoint::new(50, 1050);
    let b = BoundingBox3035::enclosing(sw, ne, se, nw);
    assert_eq!(b.sw, ProjPoint::new(50, 150));
    assert_eq!(b.ne, ProjPoint::new(950, 1050));
    assert_eq!(b.width(), 900);
    assert_eq!(b.height(), 900);
}

#[test]
fn projected_bounds_of_extreme_corners() {
    let a = ProjPoint::new(i32::MIN, i32::MAX);
    let z = ProjPoint::new(i32::MAX, i32::MIN);
    let b = BoundingBox3035::enclosing(a, z, a, z);
    assert_eq!(b.sw, ProjPoint::new(i32::MIN, i32::MIN));
    assert_eq!(b.ne, ProjPoint::new(i32::MAX, i32::MAX));
    assert_eq!(b.width(), u32::MAX as i64);
}

#[test]
fn squared_distance_in_the_plane() {
    let a = ProjPoint::new(0, 0);
    assert_eq!(a.squared_distance(&ProjPoint::new(3, 4)), 25);
    assert_eq!(a.squared_distance(&ProjPoint::new(-3, -4)), 25);
    assert_eq!(a.squared_distance(&a), 0);
    let far = ProjPoint::new(i32::MIN, i32::MIN).squared_distance(&ProjPoint::new(i32::MAX, i32::MAX));
    assert_eq!(far, 2 * (u32::MAX as u128) * (u32::MAX as u128));
}

#[test]
fn place_holds_both_positions() {
    let p = Place::new(GeoPoint::new(1, 2), ProjPoint::new(3, 4));
    assert_eq!(p.geo.lat(), 1);
    assert_eq!(p.geo.lon(), 2);
    assert_eq!(p.proj, ProjPoint::new(3, 4));
}
