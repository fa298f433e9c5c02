use mendel_vectorizer::raster::Raster;

#[test]
fn raster_needs_one_byte_for_each_pixel() {
    assert!(Raster::new(2, 3, vec![0u8; 6]).is_some());
    assert!(Raster::new(2, 3, vec![0u8; 5]).is_none());
    assert!(Raster::new(2, 3, vec![0u8; 7]).is_none());
    assert!(Raster::new(0, 0, Vec::new()).is_some());
    assert!(Raster::new(0, 5, Vec::new()).is_some());
    assert!(Raster::new(u32::MAX, u32::MAX, vec![0u8; 1]).is_none());
}

#[test]
fn raster_reports_its_dimensions() {
    let raster = Raster::new(4, 2, vec![9u8; 8]).unwrap();
    assert_eq!(raster.width(), 4);
    assert_eq!(raster.height(), 2);
}

#[test]
fn pixels_are_read_row_by_row() {
    let raster = Raster::new(3, 2, vec![10, 11, 12, 20, 21, 22]).unwrap();
    assert_eq!(raster.get_pixel(0, 0), Some(10));
    assert_eq!(raster.get_pixel(2, 0), Some(12));
    assert_eq!(raster.get_pixel(0, 1), Some(20));
    assert_eq!(raster.get_pixel(1, 1), Some(21));
    assert_eq!(raster.get_pixel(2, 1), Some(22));
}

#[test]
fn a_pixel_off_the_canvas_is_none() {
    let raster = Raster::new(3, 2, vec![10, 11, 12, 20, 21, 22]).unwrap();
    assert_eq!(raster.get_pixel(3, 0), None);
    assert_eq!(raster.get_pixel(0, 2), None);
    assert_eq!(raster.get_pixel(3, 1), None);
    assert_eq!(raster.get_pixel(u32::MAX, u32::MAX), None);
}

#[test]
fn in_bounds_tests_both_coordinates() {
    let raster = Raster::new(3, 2, vec![0u8; 6]).unwrap();
    assert!(raster.in_bounds(0, 0));
    assert!(raster.in_bounds(2, 1));
    assert!(!raster.in_bounds(3, 0));
    assert!(!raster.in_bounds(0, 2));
    assert!(!raster.in_bounds(u32::MAX, u32::MAX));
}

#[test]
fn luminance_off_the_canvas_is_none() {
    let raster = Raster::new(3, 2, vec![10, 11, 12, 20, 21, 22]).unwrap();
    assert_eq!(raster.luminance_at(1, 1), Some(21));
    assert_eq!(raster.luminance_at(-1, 0), None);
    assert_eq!(raster.luminance_at(0, -1), None);
    assert_eq!(raster.luminance_at(3, 0), None);
    assert_eq!(raster.luminance_at(0, 2), None);
    assert_eq!(raster.luminance_at(i32::MIN, i32::MAX), None);
}

#[test]
fn an_empty_raster_has_no_pixel() {
    let raster = Raster::new(0, 0, Vec::new()).unwrap();
    assert!(!raster.in_bounds(0, 0));
    assert_eq!(raster.luminance_at(0, 0), None);
}

#[test]
fn data_hands_out_the_pixels_row_by_row() {
    let raster = Raster::new(3, 2, vec![10, 11, 12, 20, 21, 22]).unwrap();
    assert_eq!(raster.data(), &vec![10u8, 11, 12, 20, 21, 22]);
}
