use nori::geo::{BoundingBox3035, ProjPoint};
use nori::render::{PixelPoint, Viewport, SUBPIXELS};

fn bounds(west: i32, south: i32, east: i32, north: i32) -> BoundingBox3035 {
    BoundingBox3035 { sw: ProjPoint::new(west, south), ne: ProjPoint::new(east, north) }
}

fn px(x: i128, y: i128) -> PixelPoint {
    PixelPoint { x: x * SUBPIXELS as i128, y: y * SUBPIXELS as i128 }
}

#[test]
fn square_bounds_fill_a_square_image() {
    let view = Viewport::new(bounds(1000, 2000, 2000, 3000), 100, 100).unwrap();
    assert_eq!(view.pixel(ProjPoint::new(1000, 3000)), px(0, 0));
    assert_eq!(view.pixel(ProjPoint::new(2000, 2000)), px(100, 100));
    assert_eq!(view.pixel(ProjPoint::new(1500, 2500)), px(50, 50));
    // north is up
    assert_eq!(view.pixel(ProjPoint::new(1000, 2000)), px(0, 100));
    assert_eq!(view.pixel(ProjPoint::new(1250, 2750)), px(25, 25));
}

#[test]
fn wide_bounds_are_centred_between_top_and_bottom() {
    // twice as wide as high, on a square image: a quarter of the image is
    // left free above and below
    let view = Viewport::new(bounds(0, 0, 2000, 1000), 200, 200).unwrap();
    assert_eq!(view.pixel(ProjPoint::new(0, 1000)), px(0, 50));
    assert_eq!(view.pixel(ProjPoint::new(2000, 0)), px(200, 150));
    assert_eq!(view.pixel(ProjPoint::new(1000, 500)), px(100, 100));
}

#[test]
fn high_bounds_are_centred_between_left_and_right() {
    let view = Viewport::new(bounds(0, 0, 1000, 4000), 400, 400).unwrap();
    assert_eq!(view.pixel(ProjPoint::new(0, 4000)), px(150, 0));
    assert_eq!(view.pixel(ProjPoint::new(1000, 0)), px(250, 400));
    assert_eq!(view.pixel(ProjPoint::new(500, 2000)), px(200, 200));
}

#[test]
fn the_scale_is_the_same_in_both_directions() {
    let view = Viewport::new(bounds(0, 0, 3000, 1000), 300, 50).unwrap();
    let origin = view.pixel(ProjPoint::new(0, 0));
    let east = view.pixel(ProjPoint::new(600, 0));
    let north = view.pixel(ProjPoint::new(0, 600));
    assert_eq!(east.x - origin.x, origin.y - north.y);
    assert_eq!(east.y, origin.y);
    assert_eq!(north.x, origin.x);
}

#[test]
fn positions_are_given_in_parts_of_a_pixel() {
    let view = Viewport::new(bounds(0, 0, 3, 3), 1, 1).unwrap();
    assert_eq!(view.pixel(ProjPoint::new(1, 3)), PixelPoint { x: 85, y: 0 });
    assert_eq!(view.pixel(ProjPoint::new(2, 2)), PixelPoint { x: 170, y: 85 });
}

#[test]
fn what_lies_outside_the_bounds_comes_to_lie_outside_the_image() {
    let view = Viewport::new(bounds(0, 0, 100, 100), 10, 10).unwrap();
    assert_eq!(view.pixel(ProjPoint::new(-50, 150)), px(-5, -5));
    assert_eq!(view.pixel(ProjPoint::new(200, -100)), px(20, 20));
    assert_eq!(view.pixel(ProjPoint::new(-1, 101)), PixelPoint { x: -26, y: -26 });
}

#[test]
fn extreme_bounds_and_points_do_not_overflow() {
    let view =
        Viewport::new(bounds(i32::MIN, i32::MIN, i32::MAX, i32::MAX), u32::MAX, u32::MAX).unwrap();
    assert_eq!(view.pixel(ProjPoint::new(i32::MIN, i32::MAX)), px(0, 0));
    assert_eq!(
        view.pixel(ProjPoint::new(i32::MAX, i32::MIN)),
        px(u32::MAX as i128, u32::MAX as i128)
    );
    let tiny = Viewport::new(bounds(0, 0, 1, 1), u32::MAX, 1).unwrap();
    let far = tiny.pixel(ProjPoint::new(i32::MIN, i32::MAX));
    assert!(far.x < 0 && far.y < 0);
}

#[test]
fn empty_bounds_or_image_have_no_viewport() {
    assert!(Viewport::new(bounds(0, 0, 0, 10), 10, 10).is_none());
    assert!(Viewport::new(bounds(0, 0, 10, 0), 10, 10).is_none());
    assert!(Viewport::new(bounds(10, 0, 0, 10), 10, 10).is_none());
    assert!(Viewport::new(bounds(0, 0, 10, 10), 0, 10).is_none());
    assert!(Viewport::new(bounds(0, 0, 10, 10), 10, 0).is_none());
    assert!(Viewport::new(bounds(0, 0, 10, 10), 1, 1).is_some());
}
