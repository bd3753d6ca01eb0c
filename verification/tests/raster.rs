use form_contour::raster::Raster;

#[test]
fn from_raw_lays_rows_one_after_the_other() {
    let raster = Raster::from_raw(3, 2, vec![10, 11, 12, 20, 21, 22]).unwrap();
    assert_eq!(raster.width(), 3);
    assert_eq!(raster.height(), 2);
    assert_eq!(raster.get(0, 0), Some(10));
    assert_eq!(raster.get(2, 0), Some(12));
    assert_eq!(raster.get(0, 1), Some(20));
    assert_eq!(raster.get(1, 1), Some(21));
}

#[test]
fn from_raw_wants_one_value_for_each_pixel() {
    assert!(Raster::from_raw(3, 2, vec![0; 5]).is_none());
    assert!(Raster::from_raw(3, 2, vec![0; 7]).is_none());
    assert!(Raster::from_raw(0, 5, Vec::new()).is_some());
}

#[test]
fn get_outside_the_raster_is_none() {
    let raster = Raster::from_raw(3, 2, vec![0; 6]).unwrap();
    assert_eq!(raster.get(3, 0), None);
    assert_eq!(raster.get(0, 2), None);
    assert_eq!(raster.get(-1, 0), None);
    assert_eq!(raster.get(0, -1), None);
    assert_eq!(raster.get(1 << 32, 0), None);
}

#[test]
fn put_stores_inside_and_refuses_outside() {
    let mut raster = Raster::from_raw(3, 2, vec![0; 6]).unwrap();
    assert!(raster.put(2, 1, 77));
    assert_eq!(raster.get(2, 1), Some(77));
    assert_eq!(raster.get(1, 1), Some(0));
    assert_eq!(raster.get(2, 0), Some(0));
    assert!(!raster.put(3, 1, 5));
    assert!(!raster.put(-1, 0, 5));
    assert_eq!(raster.width(), 3);
    assert_eq!(raster.height(), 2);
}
