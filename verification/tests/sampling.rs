use nori::geo::{BoundingBox, GeoPoint, Place, ProjPoint};
use nori::sampling::{disk_radius, next_step, uniform_between, uniform_point, Step};
use rand::Rng;

#[test]
fn disk_sampler_radius() {
    // 10 000 destinations around the source (0, 0) with a reach of 1000 m
    let mut rng = rand::thread_rng();
    let reach_mm: u64 = 1_000_000;
    let mut far = 0;
    for _ in 0..10_000 {
        let r = disk_radius(reach_mm, rng.gen::<u32>(), rng.gen::<u32>());
        assert!(r <= reach_mm);
        let angle = 2.0 * std::f64::consts::PI * rng.gen::<f64>();
        let dx = r as f64 * 0.001 * angle.cos();
        let dy = r as f64 * 0.001 * angle.sin();
        assert!(dx.hypot(dy) <= 1000.0 + 1e-9);
        if 2 * r > reach_mm {
            far += 1;
        }
    }
    // three quarters of a disk lie in the outer half of its radius
    assert!((7_200..=7_800).contains(&far), "{} of 10000 in the outer half", far);
}

#[test]
fn disk_radius_folds_the_sum_of_the_draws() {
    let half = 1u32 << 31;
    let quarter = 1u32 << 30;
    assert_eq!(disk_radius(1000, 0, 0), 0);
    assert_eq!(disk_radius(1000, half, 0), 500);
    assert_eq!(disk_radius(1000, quarter, quarter), 500);
    assert_eq!(disk_radius(1000, half, half), 1000);
    assert_eq!(disk_radius(1000, half, half + quarter), 750);
    assert_eq!(disk_radius(1000, u32::MAX, u32::MAX), 0);
    assert_eq!(disk_radius(1000, u32::MAX, 1), 1000);
    assert_eq!(disk_radius(0, 17, 4), 0);
    assert_eq!(disk_radius(u64::MAX, half, half), u64::MAX);
    assert_eq!(disk_radius(u64::MAX, half, 0), u64::MAX / 2);
}

#[test]
fn uniform_between_interpolates() {
    let half = 1u32 << 31;
    assert_eq!(uniform_between(10, 20, 0), 10);
    assert_eq!(uniform_between(10, 20, half), 15);
    assert_eq!(uniform_between(10, 20, u32::MAX), 19);
    assert_eq!(uniform_between(-20, -10, half), -15);
    assert_eq!(uniform_between(7, 7, u32::MAX), 7);
    // bounds the wrong way round: between the two all the same
    assert_eq!(uniform_between(20, 10, 0), 20);
    assert_eq!(uniform_between(20, 10, half), 15);
    assert_eq!(uniform_between(i32::MIN, i32::MAX, u32::MAX), i32::MAX - 1);
    assert_eq!(uniform_between(i32::MIN, i32::MAX, 0), i32::MIN);
    assert_eq!(uniform_between(i32::MAX, i32::MIN, u32::MAX), i32::MIN + 1);
}

#[test]
fn uniform_point_lies_in_the_bounds() {
    let bounds = BoundingBox::new(
        GeoPoint::new(52_300_000, 13_100_000),
        GeoPoint::new(52_700_000, 13_800_000),
    );
    let mut rng = rand::thread_rng();
    for _ in 0..5_000 {
        let p = uniform_point(&bounds, rng.gen::<u32>(), rng.gen::<u32>());
        assert!(bounds.is_inside(p));
    }
    assert_eq!(uniform_point(&bounds, 0, 0), GeoPoint::new(52_300_000, 13_100_000));
    assert_eq!(uniform_point(&bounds, 1 << 31, 1 << 31), GeoPoint::new(52_500_000, 13_450_000));
}

#[test]
fn a_draw_without_destination_is_drawn_again() {
    let source = Place::new(GeoPoint::new(1, 2), ProjPoint::new(3, 4));
    let destination = Place::new(GeoPoint::new(5, 6), ProjPoint::new(7, 8));
    assert_eq!(next_step(source, None), Step::DrawAgain);
    assert_eq!(
        next_step(source, Some(destination)),
        Step::Ask { from: source, to: destination }
    );
    assert_eq!(next_step(source, Some(source)), Step::Ask { from: source, to: source });
}
