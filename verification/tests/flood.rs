use form_contour::flood::flood_breadth_first;
use form_contour::raster::Raster;

fn pixels(raster: &Raster) -> Vec<u8> {
    let mut out = Vec::new();
    for y in 0..raster.height() {
        for x in 0..raster.width() {
            out.push(raster.get(x as i64, y as i64).unwrap());
        }
    }
    out
}

fn two_blobs() -> Vec<u8> {
    vec![
        9, 9, 0, 0, 0, 0, //
        9, 9, 0, 0, 9, 0, //
        0, 0, 0, 0, 9, 9, //
        0, 9, 0, 0, 0, 9, //
    ]
}

#[test]
fn flood_relabels_the_region_of_the_seed_only() {
    let raster = Raster::from_raw(6, 4, two_blobs()).unwrap();
    let flooded = flood_breadth_first(raster, 0, 0, 5);
    assert_eq!(
        pixels(&flooded),
        vec![
            5, 5, 0, 0, 0, 0, //
            5, 5, 0, 0, 9, 0, //
            0, 0, 0, 0, 9, 9, //
            0, 9, 0, 0, 0, 9, //
        ]
    );
}

#[test]
fn flood_does_not_cross_a_diagonal() {
    let raster = Raster::from_raw(3, 3, vec![1, 0, 0, 0, 1, 0, 0, 0, 1]).unwrap();
    let flooded = flood_breadth_first(raster, 1, 1, 7);
    assert_eq!(pixels(&flooded), vec![1, 0, 0, 0, 7, 0, 0, 0, 1]);
}

#[test]
fn flood_of_the_background_goes_around_the_blobs() {
    let raster = Raster::from_raw(6, 4, two_blobs()).unwrap();
    let flooded = flood_breadth_first(raster, 5, 0, 3);
    assert_eq!(
        pixels(&flooded),
        vec![
            9, 9, 3, 3, 3, 3, //
            9, 9, 3, 3, 9, 3, //
            3, 3, 3, 3, 9, 9, //
            3, 9, 3, 3, 3, 9, //
        ]
    );
}

#[test]
fn flood_twice_is_flood_once() {
    let once = flood_breadth_first(Raster::from_raw(6, 4, two_blobs()).unwrap(), 4, 1, 200);
    let expected = pixels(&once);
    let twice = flood_breadth_first(once, 4, 1, 200);
    assert_eq!(pixels(&twice), expected);
}

#[test]
fn flood_with_the_value_of_the_seed_changes_nothing() {
    let raster = Raster::from_raw(6, 4, two_blobs()).unwrap();
    let flooded = flood_breadth_first(raster, 4, 1, 9);
    assert_eq!(pixels(&flooded), two_blobs());
}

#[test]
fn flood_of_a_uniform_raster_relabels_every_pixel() {
    let raster = Raster::from_raw(50, 40, vec![255u8; 2000]).unwrap();
    let flooded = flood_breadth_first(raster, 49, 39, 1);
    assert_eq!(pixels(&flooded), vec![1u8; 2000]);
}
