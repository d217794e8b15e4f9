use nori::geo::{GeoPoint, ProjPoint};
use nori::poi::{centroid, count_cells, CellWeight, GridCell100m};

#[test]
fn centroid_is_the_mean_of_the_nodes() {
    let way = vec![GeoPoint::new(0, 0), GeoPoint::new(10, 0), GeoPoint::new(10, 20), GeoPoint::new(0, 20)];
    assert_eq!(centroid(&way), Some(GeoPoint::new(5, 10)));
    assert_eq!(centroid(&vec![GeoPoint::new(-7, 9)]), Some(GeoPoint::new(-7, 9)));
    assert_eq!(centroid(&vec![]), None);
}

#[test]
fn centroid_is_rounded_down() {
    let way = vec![GeoPoint::new(1, -1), GeoPoint::new(2, -2)];
    assert_eq!(centroid(&way), Some(GeoPoint::new(1, -2)));
    let way = vec![GeoPoint::new(0, 0), GeoPoint::new(0, -1), GeoPoint::new(1, 0)];
    assert_eq!(centroid(&way), Some(GeoPoint::new(0, -1)));
}

#[test]
fn centroid_of_extreme_nodes() {
    let way = vec![GeoPoint::new(i32::MAX, i32::MIN); 1000];
    assert_eq!(centroid(&way), Some(GeoPoint::new(i32::MAX, i32::MIN)));
    let way = vec![GeoPoint::new(i32::MAX, i32::MIN), GeoPoint::new(i32::MIN, i32::MAX)];
    assert_eq!(centroid(&way), Some(GeoPoint::new(-1, -1)));
}

#[test]
fn cell_centre_is_the_middle_of_its_hundred_metres() {
    let cell = GridCell100m::from_point3035(ProjPoint::new(4_321_000, 3_210_099));
    assert_eq!(cell, GridCell100m { x_center: 4_321_050, y_center: 3_210_050 });
    let cell = GridCell100m::from_point3035(ProjPoint::new(0, 99));
    assert_eq!(cell, GridCell100m { x_center: 50, y_center: 50 });
    let cell = GridCell100m::from_point3035(ProjPoint::new(100, 199));
    assert_eq!(cell, GridCell100m { x_center: 150, y_center: 150 });
}

#[test]
fn cell_centre_below_zero() {
    let cell = GridCell100m::from_point3035(ProjPoint::new(-1, -100));
    assert_eq!(cell, GridCell100m { x_center: -50, y_center: -50 });
    let cell = GridCell100m::from_point3035(ProjPoint::new(-101, -200));
    assert_eq!(cell, GridCell100m { x_center: -150, y_center: -150 });
    let cell = GridCell100m::from_point3035(ProjPoint::new(-4_321_001, 99));
    assert_eq!(cell, GridCell100m { x_center: -4_321_050, y_center: 50 });
}

#[test]
fn cell_of_the_smallest_coordinates() {
    let cell = GridCell100m::from_point3035(ProjPoint::new(i32::MIN, i32::MIN));
    assert_eq!(cell, GridCell100m { x_center: -2_147_483_650, y_center: -2_147_483_650 });
}

#[test]
fn cell_of_the_largest_coordinates() {
    let cell = GridCell100m::from_point3035(ProjPoint::new(i32::MAX, i32::MAX));
    assert_eq!(cell, GridCell100m { x_center: 2_147_483_650, y_center: 2_147_483_650 });
}

#[test]
fn cell_centre_agrees_with_the_rule_on_floats() {
    for east in [0, 1, 99, 100, 101, 4_321_049, 4_321_050, 4_321_051, 7_000_000] {
        let cell = GridCell100m::from_point3035(ProjPoint::new(east, 0));
        let by_float = (east as f64 * 0.01).floor() as i64 * 100 + 50;
        assert_eq!(cell.x_center, by_float);
    }
    for east in [-1, -99, -101, -4_321_049, -4_321_050, -4_321_051, -7_000_001] {
        let cell = GridCell100m::from_point3035(ProjPoint::new(east, 0));
        let by_float = (east as f64 * 0.01).floor() as i64 * 100 + 50;
        assert_eq!(cell.x_center, by_float);
    }
}

#[test]
fn points_are_counted_by_cell() {
    let points = vec![
        ProjPoint::new(10, 10),
        ProjPoint::new(250, 10),
        ProjPoint::new(90, 90),
        ProjPoint::new(10, 150),
        ProjPoint::new(299, 99),
        ProjPoint::new(0, 0),
    ];
    let cells = count_cells(&points);
    assert_eq!(
        cells,
        vec![
            CellWeight { cell: GridCell100m { x_center: 50, y_center: 50 }, weight: 3 },
            CellWeight { cell: GridCell100m { x_center: 250, y_center: 50 }, weight: 2 },
            CellWeight { cell: GridCell100m { x_center: 50, y_center: 150 }, weight: 1 },
        ]
    );
}

#[test]
fn points_on_both_sides_of_zero_lie_in_different_cells() {
    let points = vec![
        ProjPoint::new(-1, 10),
        ProjPoint::new(1, 10),
        ProjPoint::new(-100, 10),
        ProjPoint::new(-1, -1),
        ProjPoint::new(-101, 99),
        ProjPoint::new(-5_000, -7_000),
        ProjPoint::new(-4_901, -6_901),
    ];
    let cells = count_cells(&points);
    assert_eq!(
        cells,
        vec![
            CellWeight { cell: GridCell100m { x_center: -50, y_center: 50 }, weight: 2 },
            CellWeight { cell: GridCell100m { x_center: 50, y_center: 50 }, weight: 1 },
            CellWeight { cell: GridCell100m { x_center: -50, y_center: -50 }, weight: 1 },
            CellWeight { cell: GridCell100m { x_center: -150, y_center: 50 }, weight: 1 },
            CellWeight { cell: GridCell100m { x_center: -4_950, y_center: -6_950 }, weight: 2 },
        ]
    );
}

#[test]
fn weights_add_up_to_the_number_of_points() {
    let mut points: Vec<ProjPoint> = Vec::new();
    for i in 0..500 {
        points.push(ProjPoint::new((i * 37) % 1_000 - 500, (i * 91) % 700 - 350));
    }
    let cells = count_cells(&points);
    assert_eq!(cells.iter().map(|c| c.weight).sum::<u64>(), 500);
    for (k, a) in cells.iter().enumerate() {
        assert!(a.weight >= 1);
        let inside = points.iter().filter(|p| GridCell100m::from_point3035(**p) == a.cell).count();
        assert_eq!(a.weight, inside as u64);
        for b in &cells[k + 1..] {
            assert_ne!(a.cell, b.cell);
        }
    }
}

#[test]
fn no_points_no_cells() {
    assert!(count_cells(&vec![]).is_empty());
}
