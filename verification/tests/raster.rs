use gltf_unlit_generator::raster::{Raster, Rgba};

fn px(r: u8, g: u8, b: u8, a: u8) -> Rgba {
    Rgba { r, g, b, a }
}

#[test]
fn a_raster_needs_width_times_height_pixels() {
    assert!(Raster::new(2, 2, vec![px(0, 0, 0, 0); 4]).is_some());
    assert!(Raster::new(2, 2, vec![px(0, 0, 0, 0); 3]).is_none());
    assert!(Raster::new(2, 2, vec![px(0, 0, 0, 0); 5]).is_none());
    assert!(Raster::new(0, 7, vec![]).is_some());
    assert!(Raster::new(65536, 65536, vec![]).is_none());
}

#[test]
fn a_uniform_raster_repeats_its_pixel() {
    let img = Raster::from_pixel(3, 2, px(1, 2, 3, 4));
    assert_eq!(img.dimensions(), (3, 2));
    assert_eq!(img.width(), 3);
    assert_eq!(img.height(), 2);
    assert_eq!(img.len(), 6);
    assert_eq!(img.pixels(), &vec![px(1, 2, 3, 4); 6]);
    assert_eq!(Raster::from_pixel(0, 5, px(1, 2, 3, 4)).len(), 0);
}

#[test]
fn pixels_are_read_and_written_by_position() {
    let mut img = Raster::new(2, 1, vec![px(1, 1, 1, 1), px(2, 2, 2, 2)]).unwrap();
    assert_eq!(img.get(0), Some(px(1, 1, 1, 1)));
    assert_eq!(img.get(1), Some(px(2, 2, 2, 2)));
    assert_eq!(img.get(2), None);
    img.set(1, px(9, 8, 7, 6));
    assert_eq!(img.get(1), Some(px(9, 8, 7, 6)));
    assert_eq!(img.get(0), Some(px(1, 1, 1, 1)));
    let before = img.clone();
    img.set(2, px(5, 5, 5, 5));
    assert_eq!(img, before);
    assert_eq!(img.dimensions(), (2, 1));
}

#[test]
fn bytes_interleave_the_channels() {
    let img = Raster::new(2, 1, vec![px(1, 2, 3, 4), px(5, 6, 7, 8)]).unwrap();
    assert_eq!(img.rgba_bytes(), vec![1, 2, 3, 4, 5, 6, 7, 8]);
    assert_eq!(img.rgb_bytes(), vec![1, 2, 3, 5, 6, 7]);
    assert_eq!(Raster::from_pixel(0, 0, px(1, 2, 3, 4)).rgba_bytes(), Vec::<u8>::new());
}

#[test]
fn rasters_are_read_from_bytes() {
    let rgba = Raster::from_rgba_bytes(1, 2, &[1, 2, 3, 4, 5, 6, 7, 8]).unwrap();
    assert_eq!(rgba.dimensions(), (1, 2));
    assert_eq!(rgba.pixels(), &vec![px(1, 2, 3, 4), px(5, 6, 7, 8)]);
    let rgb = Raster::from_rgb_bytes(2, 1, &[1, 2, 3, 5, 6, 7]).unwrap();
    assert_eq!(rgb.dimensions(), (2, 1));
    assert_eq!(rgb.pixels(), &vec![px(1, 2, 3, 255), px(5, 6, 7, 255)]);
    assert!(Raster::from_rgba_bytes(1, 2, &[1, 2, 3, 4, 5, 6, 7]).is_none());
    assert!(Raster::from_rgba_bytes(1, 1, &[1, 2, 3, 4, 5, 6, 7, 8]).is_none());
    assert!(Raster::from_rgb_bytes(2, 1, &[1, 2, 3, 4, 5, 6, 7, 8]).is_none());
    assert!(Raster::from_rgba_bytes(0, 9, &[]).is_some());
    assert!(Raster::from_rgba_bytes(4294967295, 4294967295, &[]).is_none());
}
