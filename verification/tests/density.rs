use nori::density::{DensityClusters, DensityError, WeightedPlace};
use nori::geo::{BoundingBox, GeoPoint, Place, ProjPoint};
use nori::sampling::{Complex, Sampling, Weighted};

fn row(east: i32, north: i32, weight: u32) -> WeightedPlace {
    // the geographic position is made up from the projected one, so that a
    // test can tell places apart by either
    WeightedPlace {
        place: Place::new(GeoPoint::new(north / 10, east / 10), ProjPoint::new(east, north)),
        weight,
    }
}

#[test]
fn density_filter() {
    // two rows; the bounds leave out the second
    let rows = vec![row(0, 0, 1), row(10_000_000, 10_000_000, 5)];
    let bounds = BoundingBox::new(GeoPoint::new(-5, -5), GeoPoint::new(5, 5));
    let density = DensityClusters::from_rows(&rows, Some(bounds)).unwrap();
    assert_eq!(density.len(), 1);
    assert_eq!(density.get(0), Some(rows[0]));
    assert_eq!(density.get(1), None);
    let mut rng = rand::thread_rng();
    for _ in 0..100 {
        assert_eq!(density.sample_point(&mut rng), rows[0].place);
    }
}

#[test]
fn density_without_bounds_keeps_all_rows() {
    let rows = vec![row(0, 0, 1), row(10_000_000, 10_000_000, 5), row(5, 5, 0)];
    let density = DensityClusters::from_rows(&rows, None).unwrap();
    assert_eq!(density.len(), 3);
    assert_eq!(density.get(2), Some(rows[2]));
}

#[test]
fn density_of_nothing_is_refused() {
    assert_eq!(
        DensityClusters::from_rows(&vec![], None).err(),
        Some(DensityError::EmptyDistribution)
    );
}

#[test]
fn density_of_zero_weights_is_refused() {
    let rows = vec![row(0, 0, 0), row(1, 1, 0)];
    assert_eq!(
        DensityClusters::from_rows(&rows, None).err(),
        Some(DensityError::EmptyDistribution)
    );
}

#[test]
fn density_with_everything_out_of_bounds_is_refused() {
    let rows = vec![row(1000, 1000, 3)];
    let bounds = BoundingBox::new(GeoPoint::new(-5, -5), GeoPoint::new(5, 5));
    assert_eq!(
        DensityClusters::from_rows(&rows, Some(bounds)).err(),
        Some(DensityError::EmptyDistribution)
    );
}

#[test]
fn density_too_heavy_is_refused() {
    let rows = vec![row(0, 0, u32::MAX), row(1, 1, 1)];
    assert_eq!(DensityClusters::from_rows(&rows, None).err(), Some(DensityError::TooHeavy));
    let rows = vec![row(0, 0, u32::MAX), row(1, 1, 0)];
    assert!(DensityClusters::from_rows(&rows, None).is_ok());
    // what lies out of bounds weighs nothing
    let rows = vec![row(0, 0, u32::MAX), row(1000, 1000, 1)];
    let bounds = BoundingBox::new(GeoPoint::new(-5, -5), GeoPoint::new(5, 5));
    assert!(DensityClusters::from_rows(&rows, Some(bounds)).is_ok());
}

#[test]
fn sample_point_never_gives_a_point_without_weight() {
    let rows = vec![row(0, 0, 0), row(100, 0, 2), row(200, 0, 0), row(300, 0, 1)];
    let density = DensityClusters::from_rows(&rows, None).unwrap();
    let mut rng = rand::thread_rng();
    for _ in 0..2_000 {
        let p = density.sample_point(&mut rng);
        assert!(p == rows[1].place || p == rows[3].place);
    }
}

#[test]
fn sample_frequencies_follow_the_weights() {
    let rows = vec![row(0, 0, 1), row(100, 0, 3)];
    let density = DensityClusters::from_rows(&rows, None).unwrap();
    let mut rng = rand::thread_rng();
    let n = 40_000;
    let mut light = 0;
    for _ in 0..n {
        if density.sample_point(&mut rng) == rows[0].place {
            light += 1;
        }
    }
    // expected 10 000, standard deviation below 90
    assert!((9_200..=10_800).contains(&light), "{} of {} draws", light, n);
}

#[test]
fn sample_within_stays_within_radius() {
    let rows = vec![
        row(0, 0, 1),
        row(600, 800, 1),  // at 1000 m
        row(601, 800, 50), // just beyond 1000 m
        row(-1000, 0, 1),  // at 1000 m
        row(0, -1001, 50), // just beyond
        row(5000, 5000, 50),
    ];
    let density = DensityClusters::from_rows(&rows, None).unwrap();
    let mut rng = rand::thread_rng();
    let from = ProjPoint::new(0, 0);
    let mut seen = [false; 6];
    for _ in 0..2_000 {
        let p = density.sample_point_within(&mut rng, from, 1000).unwrap();
        assert!(p.proj.squared_distance(&from) <= 1_000_000);
        let i = rows.iter().position(|r| r.place == p).unwrap();
        seen[i] = true;
    }
    assert_eq!(seen, [true, true, false, true, false, false]);
}

#[test]
fn sample_within_is_none_where_nothing_is_in_reach() {
    let rows = vec![row(0, 0, 1), row(5000, 0, 1)];
    let density = DensityClusters::from_rows(&rows, None).unwrap();
    let mut rng = rand::thread_rng();
    assert_eq!(density.sample_point_within(&mut rng, ProjPoint::new(2500, 0), 2499), None);
    assert!(density.sample_point_within(&mut rng, ProjPoint::new(2500, 0), 2500).is_some());
}

#[test]
fn sample_within_is_none_where_only_weightless_points_are_in_reach() {
    let rows = vec![row(0, 0, 0), row(10, 0, 0), row(5000, 0, 1)];
    let density = DensityClusters::from_rows(&rows, None).unwrap();
    let mut rng = rand::thread_rng();
    assert_eq!(density.sample_point_within(&mut rng, ProjPoint::new(0, 0), 100), None);
}

#[test]
fn sample_within_radius_zero_finds_the_point_itself() {
    let rows = vec![row(0, 0, 1), row(1, 0, 1)];
    let density = DensityClusters::from_rows(&rows, None).unwrap();
    let mut rng = rand::thread_rng();
    assert_eq!(
        density.sample_point_within(&mut rng, ProjPoint::new(1, 0), 0),
        Some(rows[1].place)
    );
}

#[test]
fn sample_within_with_the_largest_radius_and_farthest_points() {
    let rows = vec![row(i32::MIN, i32::MIN, 1), row(i32::MAX, i32::MAX, 1)];
    let density = DensityClusters::from_rows(&rows, None).unwrap();
    let mut rng = rand::thread_rng();
    let from = ProjPoint::new(i32::MIN, i32::MIN);
    for _ in 0..50 {
        assert_eq!(density.sample_point_within(&mut rng, from, u32::MAX), Some(rows[0].place));
    }
}

#[test]
fn weighted_sampling_draws_from_the_cloud() {
    let rows = vec![row(0, 0, 1), row(300, 400, 1), row(100_000, 0, 1)];
    let mut sampler = Weighted::from_rows(&rows, None, 500).unwrap();
    for _ in 0..500 {
        let source = sampler.gen_source();
        assert!(rows.iter().any(|r| r.place == source));
        let destination = sampler.gen_destination(source).unwrap();
        assert!(destination.proj.squared_distance(&source.proj) <= 250_000);
    }
}

#[test]
fn weighted_sampling_reports_an_empty_cloud() {
    assert_eq!(
        Weighted::from_rows(&vec![], None, 500).err(),
        Some(DensityError::EmptyDistribution)
    );
}

#[test]
fn weighted_destination_can_be_none() {
    let rows = vec![row(0, 0, 1)];
    let density = DensityClusters::from_rows(&rows, None).unwrap();
    let mut sampler = Weighted::new(density, 10);
    let far = Place::new(GeoPoint::new(0, 0), ProjPoint::new(1000, 1000));
    assert_eq!(sampler.gen_destination(far), None);
}

#[test]
fn complex_sampling_draws_from_both_clouds() {
    let population = vec![row(0, 0, 1)];
    let poi = vec![row(30, 40, 1)];
    let mut sampler = Complex::from_rows(&population, &poi, None, 50).unwrap();
    let mut from_population = 0;
    let mut from_poi = 0;
    for _ in 0..1_000 {
        let source = sampler.gen_source();
        if source == population[0].place {
            from_population += 1;
        } else {
            assert_eq!(source, poi[0].place);
            from_poi += 1;
        }
        let destination = sampler.gen_destination(source).unwrap();
        assert!(destination == population[0].place || destination == poi[0].place);
    }
    // a fair coin: each side about 500 times, standard deviation below 16
    assert!(from_population > 350 && from_poi > 350);
}

#[test]
fn complex_sampling_reports_the_first_empty_cloud() {
    let heavy = vec![row(0, 0, u32::MAX), row(1, 1, 1)];
    let good = vec![row(0, 0, 1)];
    assert_eq!(
        Complex::from_rows(&vec![], &heavy, None, 50).err(),
        Some(DensityError::EmptyDistribution)
    );
    assert_eq!(
        Complex::from_rows(&heavy, &vec![], None, 50).err(),
        Some(DensityError::TooHeavy)
    );
    assert_eq!(
        Complex::from_rows(&good, &vec![], None, 50).err(),
        Some(DensityError::EmptyDistribution)
    );
}

#[test]
fn complex_destination_can_be_none() {
    let population = vec![row(0, 0, 1)];
    let poi = vec![row(10_000, 0, 1)];
    let density_population = DensityClusters::from_rows(&population, None).unwrap();
    let density_poi = DensityClusters::from_rows(&poi, None).unwrap();
    let mut sampler = Complex::new(density_population, density_poi, 100);
    let mut none = 0;
    for _ in 0..200 {
        match sampler.gen_destination(population[0].place) {
            Some(p) => assert_eq!(p, population[0].place),
            None => none += 1,
        }
    }
    assert!(none > 0);
}
