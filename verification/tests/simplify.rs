use form_contour::simplify::distance2;
use form_contour::simplify::perpendicular_distance;
use form_contour::simplify::polygon_ramer_douglas_peucker;
use form_contour::simplify::ramer_douglas_peucker;
use form_contour::simplify::within_limit;
use form_contour::simplify::SimplifyError;
use form_contour::simplify::Tolerance;
use form_contour::simplify::COORDINATE_LIMIT;

fn tolerance(numer: u32, denom: u32) -> Tolerance {
    Tolerance::new(numer, denom).unwrap()
}

fn zigzag() -> Vec<(i64, i64)> {
    vec![(0, 0), (1, 2), (2, -1), (3, 3), (4, 0), (5, 1), (6, 0)]
}

#[test]
fn tolerance_needs_a_denominator() {
    assert!(Tolerance::new(1, 0).is_none());
    assert!(Tolerance::new(0, 1).is_some());
    assert_eq!(Tolerance::new(1, 2), Tolerance::new(1, 2));
}

#[test]
fn squared_distance_of_a_three_four_five_triangle() {
    assert_eq!(distance2((1, 2), (4, 6)), 25);
    assert_eq!(distance2((4, 6), (1, 2)), 25);
    assert_eq!(distance2((-3, 7), (-3, 7)), 0);
}

#[test]
fn squared_distance_at_the_limit() {
    let m = COORDINATE_LIMIT;
    assert_eq!(distance2((-m, -m), (m, m)), 1u128 << 63);
}

#[test]
fn perpendicular_distance_is_a_fraction_over_the_chord() {
    assert_eq!(perpendicular_distance((0, 5), ((0, 0), (10, 0))), (2500, 100));
    assert_eq!(perpendicular_distance((2, 2), ((0, 0), (4, 4))), (0, 32));
    assert_eq!(perpendicular_distance((3, 6), ((3, 3), (6, 6))), (81, 18));
}

#[test]
fn perpendicular_distance_is_measured_from_the_line_not_the_segment() {
    assert_eq!(perpendicular_distance((20, 3), ((0, 0), (10, 0))), (900, 100));
}

#[test]
fn perpendicular_distance_from_a_chord_of_no_length() {
    assert_eq!(perpendicular_distance((3, 4), ((0, 0), (0, 0))), (25, 1));
    assert_eq!(perpendicular_distance((7, 7), ((7, 7), (7, 7))), (0, 1));
}

#[test]
fn perpendicular_distance_at_the_limit() {
    let m = COORDINATE_LIMIT;
    assert_eq!(perpendicular_distance((0, m), ((-m, 0), (m, 0))), (1u128 << 122, 1u128 << 62));
}

#[test]
fn two_point_path_is_returned_unchanged() {
    for t in [tolerance(0, 1), tolerance(1, 2), tolerance(u32::MAX, 1)] {
        assert_eq!(ramer_douglas_peucker(vec![(3, 4), (-5, 9)], t), Ok(vec![(3, 4), (-5, 9)]));
        assert_eq!(ramer_douglas_peucker(vec![(1, 1), (1, 1)], t), Ok(vec![(1, 1), (1, 1)]));
    }
}

#[test]
fn straight_line_is_reduced_to_its_ends() {
    let line: Vec<(i64, i64)> = (0..200).map(|i| (3 * i, -2 * i)).collect();
    for t in [tolerance(0, 1), tolerance(1, 2), tolerance(1000, 1)] {
        assert_eq!(ramer_douglas_peucker(line.clone(), t), Ok(vec![(0, 0), (597, -398)]));
    }
}

#[test]
fn straight_line_that_doubles_back_is_reduced_to_its_ends() {
    let path = vec![(0, 0), (5, 0), (1, 0)];
    assert_eq!(ramer_douglas_peucker(path, tolerance(0, 1)), Ok(vec![(0, 0), (1, 0)]));
}

#[test]
fn path_that_returns_to_its_start_keeps_what_lies_away_from_it() {
    let path = vec![(0, 0), (1, 0), (0, 0)];
    assert_eq!(
        ramer_douglas_peucker(path.clone(), tolerance(1, 2)),
        Ok(vec![(0, 0), (1, 0), (0, 0)])
    );
    assert_eq!(ramer_douglas_peucker(path, tolerance(1, 1)), Ok(vec![(0, 0), (0, 0)]));
}

#[test]
fn ends_are_never_removed() {
    for numer in [0, 1, 2, 5, 9, 1000] {
        let simplified = ramer_douglas_peucker(zigzag(), tolerance(numer, 1)).unwrap();
        assert_eq!(simplified.first(), Some(&(0, 0)));
        assert_eq!(simplified.last(), Some(&(6, 0)));
    }
}

#[test]
fn zero_tolerance_keeps_every_point_off_the_chord() {
    assert_eq!(ramer_douglas_peucker(zigzag(), tolerance(0, 1)), Ok(zigzag()));
    assert_eq!(
        ramer_douglas_peucker(vec![(0, 0), (1, 1), (2, 3), (3, 3), (7, 7)], tolerance(0, 1)),
        Ok(vec![(0, 0), (1, 1), (2, 3), (3, 3), (7, 7)])
    );
}

#[test]
fn zero_tolerance_drops_points_on_the_chord() {
    assert_eq!(
        ramer_douglas_peucker(vec![(0, 0), (1, 1), (2, 2), (3, 3), (7, 7)], tolerance(0, 1)),
        Ok(vec![(0, 0), (7, 7)])
    );
}

#[test]
fn split_point_differs_from_span_to_span() {
    assert_eq!(
        ramer_douglas_peucker(zigzag(), tolerance(1, 1)),
        Ok(vec![(0, 0), (1, 2), (2, -1), (3, 3), (4, 0), (6, 0)])
    );
    assert_eq!(
        ramer_douglas_peucker(zigzag(), tolerance(2, 1)),
        Ok(vec![(0, 0), (1, 2), (2, -1), (3, 3), (6, 0)])
    );
    assert_eq!(
        ramer_douglas_peucker(zigzag(), tolerance(5, 1)),
        Ok(vec![(0, 0), (3, 3), (6, 0)])
    );
    assert_eq!(ramer_douglas_peucker(zigzag(), tolerance(9, 1)), Ok(vec![(0, 0), (6, 0)]));
}

#[test]
fn first_of_two_equally_far_points_is_the_split() {
    let path = vec![(0, 0), (4, 2), (6, 2), (10, 0)];
    assert_eq!(ramer_douglas_peucker(path, tolerance(1, 1)), Ok(vec![(0, 0), (4, 2), (10, 0)]));
}

#[test]
fn distance_equal_to_the_tolerance_does_not_split() {
    let path = vec![(0, 0), (5, 3), (10, 0)];
    assert_eq!(ramer_douglas_peucker(path.clone(), tolerance(9, 1)), Ok(vec![(0, 0), (10, 0)]));
    assert_eq!(ramer_douglas_peucker(path.clone(), tolerance(900, 100)), Ok(vec![(0, 0), (10, 0)]));
    assert_eq!(ramer_douglas_peucker(path, tolerance(899, 100)), Ok(vec![(0, 0), (5, 3), (10, 0)]));
}

#[test]
fn simplification_is_exact_at_the_coordinate_limit() {
    let m = COORDINATE_LIMIT;
    assert_eq!(
        ramer_douglas_peucker(vec![(-m, -m), (m, -m), (m, m)], tolerance(u32::MAX, 1)),
        Ok(vec![(-m, -m), (m, -m), (m, m)])
    );
    assert_eq!(
        ramer_douglas_peucker(vec![(-m, 0), (0, 1), (m, 0)], tolerance(1, 1)),
        Ok(vec![(-m, 0), (m, 0)])
    );
    assert_eq!(
        ramer_douglas_peucker(vec![(-m, 0), (0, 1), (m, 0)], tolerance(999_999_999, 1_000_000_000)),
        Ok(vec![(-m, 0), (0, 1), (m, 0)])
    );
}

#[test]
fn path_of_fewer_than_two_points_is_degenerate() {
    let t = tolerance(1, 2);
    assert_eq!(ramer_douglas_peucker(Vec::new(), t), Err(SimplifyError::DegeneratePath));
    assert_eq!(ramer_douglas_peucker(vec![(1, 1)], t), Err(SimplifyError::DegeneratePath));
    assert_eq!(
        ramer_douglas_peucker(vec![(i64::MAX, 0)], t),
        Err(SimplifyError::DegeneratePath)
    );
}

#[test]
fn coordinate_beyond_the_limit_is_refused() {
    let t = tolerance(1, 2);
    let m = COORDINATE_LIMIT;
    assert_eq!(
        ramer_douglas_peucker(vec![(0, 0), (m + 1, 0)], t),
        Err(SimplifyError::CoordinateOutOfRange)
    );
    assert_eq!(
        ramer_douglas_peucker(vec![(0, 0), (1, 1), (0, -m - 1)], t),
        Err(SimplifyError::CoordinateOutOfRange)
    );
    assert_eq!(
        polygon_ramer_douglas_peucker(vec![(i64::MIN, i64::MAX)], t),
        Err(SimplifyError::CoordinateOutOfRange)
    );
    assert_eq!(ramer_douglas_peucker(vec![(0, 0), (m, -m)], t), Ok(vec![(0, 0), (m, -m)]));
}

#[test]
fn within_limit_tests_every_coordinate() {
    let m = COORDINATE_LIMIT;
    assert!(within_limit(&Vec::new()));
    assert!(within_limit(&vec![(m, -m), (-m, m)]));
    assert!(!within_limit(&vec![(0, 0), (0, m + 1)]));
    assert!(!within_limit(&vec![(-m - 1, 0), (0, 0)]));
}

#[test]
fn closed_path_of_no_points_is_degenerate() {
    assert_eq!(
        polygon_ramer_douglas_peucker(Vec::new(), tolerance(1, 2)),
        Err(SimplifyError::DegeneratePath)
    );
}

#[test]
fn closed_path_of_one_point_is_that_point_twice() {
    assert_eq!(
        polygon_ramer_douglas_peucker(vec![(5, 5)], tolerance(0, 1)),
        Ok(vec![(5, 5), (5, 5)])
    );
}

#[test]
fn closed_path_of_two_points_goes_out_and_back() {
    assert_eq!(
        polygon_ramer_douglas_peucker(vec![(1, 1), (4, 5)], tolerance(0, 1)),
        Ok(vec![(1, 1), (4, 5), (1, 1)])
    );
}

#[test]
fn closed_path_is_opened_at_the_first_point_of_its_widest_pair() {
    let path = vec![(2, 3), (0, 0), (3, 1), (9, 9)];
    assert_eq!(
        polygon_ramer_douglas_peucker(path.clone(), tolerance(0, 1)),
        Ok(vec![(0, 0), (3, 1), (9, 9), (2, 3), (0, 0)])
    );
    assert_eq!(
        polygon_ramer_douglas_peucker(path, tolerance(3, 1)),
        Ok(vec![(0, 0), (9, 9), (0, 0)])
    );
}

#[test]
fn closed_path_of_equal_points_is_opened_at_its_first() {
    assert_eq!(
        polygon_ramer_douglas_peucker(vec![(4, 4), (4, 4), (4, 4)], tolerance(0, 1)),
        Ok(vec![(4, 4), (4, 4)])
    );
}

#[test]
fn contour_of_an_angle_is_reduced_to_its_corners() {
    let contour = vec![
        (2, 2),
        (2, 3),
        (2, 4),
        (2, 5),
        (2, 6),
        (3, 6),
        (3, 5),
        (3, 4),
        (4, 3),
        (5, 3),
        (5, 2),
        (4, 2),
        (3, 2),
        (2, 2),
    ];
    assert_eq!(
        polygon_ramer_douglas_peucker(contour.clone(), tolerance(1, 2)),
        Ok(vec![(2, 6), (3, 6), (3, 4), (5, 2), (2, 2), (2, 6)])
    );
    assert_eq!(
        polygon_ramer_douglas_peucker(contour.clone(), tolerance(2, 1)),
        Ok(vec![(2, 6), (5, 2), (2, 2), (2, 6)])
    );
    assert_eq!(
        polygon_ramer_douglas_peucker(contour, tolerance(100, 1)),
        Ok(vec![(2, 6), (2, 6)])
    );
}
