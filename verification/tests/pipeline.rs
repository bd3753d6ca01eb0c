use form_contour::contour::find_contour;
use form_contour::flood::flood_breadth_first;
use form_contour::raster::Raster;
use form_contour::simplify::polygon_ramer_douglas_peucker;
use form_contour::simplify::ramer_douglas_peucker;
use form_contour::simplify::Tolerance;

fn page() -> Raster {
    let mut data = vec![0u8; 100];
    for y in 3..7 {
        for x in 3..7 {
            data[y * 10 + x] = 255;
        }
    }
    Raster::from_raw(10, 10, data).unwrap()
}

#[test]
fn flood_of_the_square_relabels_its_sixteen_pixels() {
    let flooded = flood_breadth_first(page(), 4, 4, 128);
    let mut relabelled = 0;
    for y in 0..10 {
        for x in 0..10 {
            let inside = (3..7).contains(&x) && (3..7).contains(&y);
            let expected = if inside { 128 } else { 0 };
            assert_eq!(flooded.get(x, y), Some(expected));
            if flooded.get(x, y) != page().get(x, y) {
                relabelled += 1;
            }
        }
    }
    assert_eq!(relabelled, 16);
}

#[test]
fn contour_of_the_square_runs_along_its_sides_and_closes() {
    let contour = find_contour(&page()).unwrap();
    assert_eq!(
        contour,
        vec![
            (3, 3),
            (3, 4),
            (3, 5),
            (3, 6),
            (4, 6),
            (5, 6),
            (6, 6),
            (6, 5),
            (6, 4),
            (6, 3),
            (5, 3),
            (4, 3),
            (3, 3),
        ]
    );
}

#[test]
fn contour_of_the_square_is_reduced_to_its_four_corners() {
    let contour = find_contour(&page()).unwrap();
    let half = Tolerance::new(1, 2).unwrap();
    let corners = polygon_ramer_douglas_peucker(contour.clone(), half).unwrap();
    assert_eq!(corners, vec![(3, 3), (3, 6), (6, 6), (6, 3), (3, 3)]);
    let mut distinct = corners.clone();
    distinct.sort();
    distinct.dedup();
    assert_eq!(distinct.len(), 4);
    assert_eq!(ramer_douglas_peucker(contour, half).unwrap(), corners);
}

#[test]
fn contour_of_the_flooded_square_is_missing() {
    let flooded = flood_breadth_first(page(), 4, 4, 128);
    assert!(find_contour(&flooded).is_err());
}
