use std::f64::consts::PI;

use nori::compare::{
    assess, is_alongside, orientation, orientation_diff, reference_segments, CompareError, LineFeature,
    MatchFacts, Segment, Verdict, HALF_TURN, MAX_DISTANCE, MAX_SQUARED_DISTANCE,
    ORIENTATION_TOLERANCE,
};

fn good(number: u64) -> MatchFacts {
    MatchFacts { orientation_diff: 0, connection_90_diff: 0, reverse_hits: 1, number }
}

/// The heading of the line between two points, in picoradians.
fn heading(from: [f64; 2], to: [f64; 2]) -> i64 {
    let dx = to[0] - from[0];
    let dy = to[1] - from[1];
    (dy.atan2(dx) * 1e12).round() as i64
}

fn radians(angle: i64) -> f64 {
    angle as f64 * 1e-12
}

fn approx_eq(a: f64, b: f64) -> bool {
    (a - b).abs() < 1.0e-10
}

#[test]
fn test_orientation() {
    let a = heading([0.0, 0.0], [1.0, 0.0]);
    let b = heading([0.0, 0.0], [0.0, 1.0]);
    assert!(approx_eq(radians(orientation(a)), 0.0));
    assert!(approx_eq(radians(orientation(b)), PI * 0.5));
    assert!(approx_eq(radians(orientation_diff(a, b)), PI * 0.5));
    assert!(approx_eq(radians(orientation_diff(b, a)), PI * 0.5));
    let a2 = heading([1.0, 0.0], [0.0, 0.0]);
    assert!(approx_eq(radians(orientation_diff(a2, b)), PI * 0.5));
    assert!(approx_eq(radians(orientation_diff(b, a2)), PI * 0.5));
}

#[test]
fn orientation_is_folded_into_half_a_turn() {
    assert_eq!(orientation(0), 0);
    assert_eq!(orientation(1), 1);
    assert_eq!(orientation(-1), HALF_TURN - 1);
    assert_eq!(orientation(HALF_TURN / 2), HALF_TURN / 2);
    assert_eq!(orientation(-HALF_TURN / 2), HALF_TURN / 2);
    assert_eq!(orientation(HALF_TURN), 0);
    assert_eq!(orientation(HALF_TURN - 1), HALF_TURN - 1);
    assert_eq!(orientation(-HALF_TURN), 0);
}

#[test]
fn orientation_does_not_depend_on_the_way_a_line_is_walked() {
    let ends = [
        ([0.0, 0.0], [3.0, 4.0]),
        ([1.0, 1.0], [-2.0, 5.0]),
        ([0.0, 0.0], [0.0, -7.0]),
        ([2.0, 3.0], [-1.0, -1.0]),
    ];
    for (from, to) in ends {
        let there = orientation(heading(from, to));
        let back = orientation(heading(to, from));
        assert!((there - back).abs() <= 1, "{} and {}", there, back);
    }
    // due east and due west are both folded to no turn
    assert_eq!(orientation(heading([0.0, 0.0], [1.0, 0.0])), 0);
    assert_eq!(orientation(heading([1.0, 0.0], [0.0, 0.0])), 0);
    for angle in [-HALF_TURN, -HALF_TURN + 1, -1, 0, 1, HALF_TURN / 2, HALF_TURN - 1, HALF_TURN] {
        let back = if angle > 0 { angle - HALF_TURN } else { angle + HALF_TURN };
        assert_eq!(orientation(angle), orientation(back));
        assert!((0..HALF_TURN).contains(&orientation(angle)));
    }
}

#[test]
fn orientation_diff_is_symmetric_and_at_most_a_quarter_turn() {
    let angles = [
        -HALF_TURN,
        -HALF_TURN + 1,
        -HALF_TURN / 2,
        -1,
        0,
        1,
        1_000_000,
        HALF_TURN / 2,
        HALF_TURN / 2 + 1,
        HALF_TURN - 1,
        HALF_TURN,
    ];
    for a in angles {
        for b in angles {
            let d = orientation_diff(a, b);
            assert_eq!(d, orientation_diff(b, a));
            assert!((0..=HALF_TURN / 2).contains(&d));
        }
        assert_eq!(orientation_diff(a, a), 0);
    }
    assert_eq!(orientation_diff(0, HALF_TURN), 0);
    assert_eq!(orientation_diff(10, HALF_TURN - 10), 20);
    assert_eq!(orientation_diff(0, HALF_TURN / 2), HALF_TURN / 2);
    assert_eq!(orientation_diff(-HALF_TURN / 2, HALF_TURN / 2), 0);
    assert_eq!(orientation_diff(100, 350), 250);
}

#[test]
fn a_segment_that_is_not_alongside_is_rejected_whatever_lies_near_it() {
    assert!(is_alongside(0, 0));
    assert!(is_alongside(ORIENTATION_TOLERANCE, ORIENTATION_TOLERANCE));
    assert!(!is_alongside(ORIENTATION_TOLERANCE + 1, 0));
    assert!(!is_alongside(0, ORIENTATION_TOLERANCE + 1));
    for reverse_hits in [0, 1, 2, 7] {
        let askew = MatchFacts {
            orientation_diff: ORIENTATION_TOLERANCE + 1,
            connection_90_diff: 0,
            reverse_hits,
            number: 3,
        };
        assert_eq!(assess(true, &vec![good(5), askew]), Verdict::Rejected);
    }
}

#[test]
fn comparison_match() {
    // a simulated edge from (0, 0) to (100, 0) with counter 7 lies near the
    // reference segment from (0, 10) to (100, 10) with the number 42: one
    // connection, and the row (42, 7, 1) in the table
    let reference = heading([0.0, 10.0], [100.0, 10.0]);
    let simulated = heading([0.0, 0.0], [100.0, 0.0]);
    // the connection from (50, 10) to (50, 0), turned by a quarter turn
    let connection = heading([50.0, 10.0], [40.0, 10.0]);
    let facts = MatchFacts {
        orientation_diff: orientation_diff(reference, simulated),
        connection_90_diff: orientation_diff(reference, connection),
        reverse_hits: 1,
        number: 7,
    };
    assert_eq!(facts, good(7));
    let verdict = assess(true, &vec![facts]);
    assert_eq!(
        verdict,
        Verdict::Accepted { number_sim: 7, number_connections: 1, in_table: true }
    );
}

#[test]
fn comparison_sums_the_simulated_numbers() {
    let verdict = assess(true, &vec![good(7), good(0), good(5)]);
    assert_eq!(
        verdict,
        Verdict::Accepted { number_sim: 12, number_connections: 3, in_table: true }
    );
}

#[test]
fn comparison_without_matches_is_accepted_but_not_tabled() {
    assert_eq!(
        assess(true, &vec![]),
        Verdict::Accepted { number_sim: 0, number_connections: 0, in_table: false }
    );
}

#[test]
fn comparison_row_needs_both_numbers_above_zero() {
    assert_eq!(
        assess(false, &vec![good(7)]),
        Verdict::Accepted { number_sim: 7, number_connections: 1, in_table: false }
    );
    assert_eq!(
        assess(true, &vec![good(0)]),
        Verdict::Accepted { number_sim: 0, number_connections: 1, in_table: false }
    );
}

#[test]
fn comparison_rejects_on_orientation() {
    let bad = MatchFacts { orientation_diff: ORIENTATION_TOLERANCE + 1, ..good(3) };
    assert_eq!(assess(true, &vec![good(7), bad]), Verdict::Rejected);
    let edge = MatchFacts { orientation_diff: ORIENTATION_TOLERANCE, ..good(3) };
    assert_eq!(
        assess(true, &vec![good(7), edge]),
        Verdict::Accepted { number_sim: 10, number_connections: 2, in_table: true }
    );
}

#[test]
fn comparison_rejects_on_connection_angle() {
    let bad = MatchFacts { connection_90_diff: ORIENTATION_TOLERANCE + 1, ..good(3) };
    assert_eq!(assess(true, &vec![bad, good(7)]), Verdict::Rejected);
    let edge = MatchFacts { connection_90_diff: ORIENTATION_TOLERANCE, ..good(3) };
    assert_eq!(
        assess(true, &vec![edge]),
        Verdict::Accepted { number_sim: 3, number_connections: 1, in_table: true }
    );
}

#[test]
fn comparison_rejects_where_a_match_fits_elsewhere_too() {
    let bad = MatchFacts { reverse_hits: 2, ..good(3) };
    assert_eq!(assess(true, &vec![good(7), bad, good(1)]), Verdict::Rejected);
    let lonely = MatchFacts { reverse_hits: 0, ..good(3) };
    assert_eq!(
        assess(true, &vec![lonely]),
        Verdict::Accepted { number_sim: 3, number_connections: 1, in_table: true }
    );
}

#[test]
fn comparison_sum_does_not_overflow() {
    let verdict = assess(true, &vec![good(u64::MAX), good(u64::MAX), good(u64::MAX)]);
    assert_eq!(
        verdict,
        Verdict::Accepted {
            number_sim: 3 * (u64::MAX as u128),
            number_connections: 3,
            in_table: true
        }
    );
}

#[test]
fn comparison_constants() {
    assert_eq!(MAX_DISTANCE, 20);
    assert_eq!(MAX_SQUARED_DISTANCE, MAX_DISTANCE * MAX_DISTANCE);
    assert_eq!(ORIENTATION_TOLERANCE as f64 * 1e-12, 0.01);
    assert!((HALF_TURN as f64 * 1e-12 - PI).abs() < 1e-12);
}

#[test]
fn reference_lines_are_cut_into_segments() {
    let lines = vec![
        LineFeature { points: vec![Some((0.0, 10.0)), Some((100.0, 10.0))], number: Some(42.0) },
        LineFeature {
            points: vec![Some((1.0, 1.0)), Some((2.0, 2.0)), Some((3.0, 3.0))],
            number: Some(7.5),
        },
    ];
    let segments = reference_segments(&lines).unwrap();
    assert_eq!(
        segments,
        vec![
            Segment { from: (0.0, 10.0), to: (100.0, 10.0), number: 42.0 },
            Segment { from: (1.0, 1.0), to: (2.0, 2.0), number: 7.5 },
            Segment { from: (2.0, 2.0), to: (3.0, 3.0), number: 7.5 },
        ]
    );
}

#[test]
fn reference_lines_without_number_are_left_out() {
    let lines = vec![
        LineFeature { points: vec![Some(1), Some(2)], number: None },
        LineFeature { points: vec![Some(3), Some(4)], number: Some(9u8) },
    ];
    assert_eq!(
        reference_segments(&lines),
        Ok(vec![Segment { from: 3, to: 4, number: 9u8 }])
    );
}

#[test]
fn reference_segments_pass_over_unreadable_points() {
    let lines = vec![LineFeature {
        points: vec![None, Some(1), None, None, Some(2), Some(3), None],
        number: Some('x'),
    }];
    assert_eq!(
        reference_segments(&lines),
        Ok(vec![
            Segment { from: 1, to: 2, number: 'x' },
            Segment { from: 2, to: 3, number: 'x' },
        ])
    );
}

#[test]
fn reference_data_without_segments_is_refused() {
    let none: Vec<LineFeature<i32, i32>> = vec![];
    assert_eq!(reference_segments(&none), Err(CompareError::NoSegments));
    let short = vec![
        LineFeature { points: vec![Some(1)], number: Some(1) },
        LineFeature { points: vec![], number: Some(1) },
        LineFeature { points: vec![Some(1), Some(2)], number: None },
        LineFeature { points: vec![None, Some(1), None], number: Some(1) },
    ];
    assert_eq!(reference_segments(&short), Err(CompareError::NoSegments));
}
