use form_contour::contour::find_contour;
use form_contour::contour::follow_contour;
use form_contour::contour::Direction;
use form_contour::contour::TraceError;
use form_contour::raster::Raster;

fn raster_with_square(width: u32, height: u32, left: u32, top: u32, side: u32) -> Raster {
    let mut data = vec![0u8; (width * height) as usize];
    for y in top..top + side {
        for x in left..left + side {
            data[(y * width + x) as usize] = 255;
        }
    }
    Raster::from_raw(width, height, data).unwrap()
}

#[test]
fn square_of_four_pixels_is_traced_corner_by_corner() {
    let raster = raster_with_square(4, 4, 1, 1, 2);
    let contour = find_contour(&raster).unwrap();
    assert_eq!(contour, vec![(1, 1), (1, 2), (2, 2), (2, 1), (1, 1)]);
}

#[test]
fn three_by_three_block_is_enclosed_by_its_contour() {
    let raster = raster_with_square(7, 6, 2, 1, 3);
    let contour = find_contour(&raster).unwrap();
    assert_eq!(
        contour,
        vec![(2, 1), (2, 2), (2, 3), (3, 3), (4, 3), (4, 2), (4, 1), (3, 1), (2, 1)]
    );
    assert_eq!(contour.first(), contour.last());
    for &(x, y) in &contour {
        assert!((2..=4).contains(&x) && (1..=3).contains(&y));
        assert!(x == 2 || x == 4 || y == 1 || y == 3);
    }
}

#[test]
fn all_background_raster_has_no_contour() {
    let raster = Raster::from_raw(5, 4, vec![0u8; 20]).unwrap();
    assert_eq!(find_contour(&raster), Err(TraceError::NoForegroundPixel));
}

#[test]
fn empty_raster_has_no_contour() {
    let raster = Raster::from_raw(0, 0, Vec::new()).unwrap();
    assert_eq!(find_contour(&raster), Err(TraceError::NoForegroundPixel));
}

#[test]
fn single_pixel_never_closes() {
    let raster = raster_with_square(5, 5, 2, 2, 1);
    assert_eq!(find_contour(&raster), Err(TraceError::TraceDidNotClose));
}

#[test]
fn foreground_on_the_border_reads_outside() {
    let raster = raster_with_square(4, 4, 0, 0, 2);
    assert_eq!(find_contour(&raster), Err(TraceError::OutOfBounds));
}

#[test]
fn walk_that_starts_on_its_first_point_closes_at_once() {
    let raster = raster_with_square(4, 4, 1, 1, 2);
    let contour = follow_contour(&raster, 1, 1, Direction::Down, vec![(1, 1), (1, 2)]);
    assert_eq!(contour, Ok(vec![(1, 1), (1, 2), (1, 1)]));
}

#[test]
fn walk_from_far_outside_reads_outside() {
    let raster = raster_with_square(4, 4, 1, 1, 2);
    let contour = follow_contour(&raster, i64::MAX, i64::MIN, Direction::Right, Vec::new());
    assert_eq!(contour, Err(TraceError::OutOfBounds));
}
