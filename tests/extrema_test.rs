use distance_field::extrema::Extrema;
use distance_field::filename::get_output_filename;
use distance_field::raster::HeightImage;
use distance_field::settings::{CaptureHeight, GenSettings, ImgRepeat, DEF_RADIUS};

#[test]
fn image_extrema_over_all_pixels() {
    let img = HeightImage::new(3, 2, vec![7, 3, 9, 200, 4, 5]).unwrap();
    assert_eq!(Extrema::get_image_extrema(&img), Some(Extrema { min: 3, max: 200 }));
    let full = HeightImage::new(2, 2, vec![0, 255, 100, 3]).unwrap();
    assert_eq!(Extrema::get_image_extrema(&full), Some(Extrema { min: 0, max: 255 }));
}

#[test]
fn border_extrema_skip_the_interior() {
    let img = HeightImage::new(3, 3, vec![10, 20, 30, 40, 255, 60, 70, 80, 90]).unwrap();
    assert_eq!(Extrema::get_border_extrema(&img), Some(Extrema { min: 10, max: 90 }));
    let thin = HeightImage::new(1, 3, vec![5, 1, 9]).unwrap();
    assert_eq!(Extrema::get_border_extrema(&thin), Some(Extrema { min: 1, max: 9 }));
}

#[test]
fn empty_images_have_no_extrema() {
    let img = HeightImage::new(0, 0, vec![]).unwrap();
    assert_eq!(Extrema::get_image_extrema(&img), None);
    assert_eq!(Extrema::get_border_extrema(&img), None);
}

#[test]
fn capture_height_is_maximum() {
    assert_eq!(Extrema::get_capture_height(&Extrema { min: 2, max: 77 }), 77);
    assert_eq!(Extrema::get_capture_height(&Extrema { min: 2, max: 255 }), 255);
}

#[test]
fn image_construction_checks_sizes() {
    assert!(HeightImage::new(2, 2, vec![1, 2, 3]).is_none());
    let rgba = vec![1, 9, 9, 9, 2, 9, 9, 9, 3, 9, 9, 9, 4, 9, 9, 9];
    let img = HeightImage::from_channels(2, 2, &rgba, 4).unwrap();
    assert_eq!(img.pixels, vec![1, 2, 3, 4]);
    assert_eq!(img.value_at(1, 1), 4);
    assert!(HeightImage::from_channels(2, 2, &rgba, 3).is_none());
    assert!(HeightImage::from_channels(2, 2, &rgba, 0).is_none());
}

#[test]
fn settings_defaults_and_choices() {
    let s = GenSettings::new();
    assert_eq!(s.radius, DEF_RADIUS);
    assert_eq!(s.repeat, ImgRepeat::Repeat);
    assert_eq!(s.height_setting, CaptureHeight::Generated);
    assert_eq!(s.img_height_mult_milli, 1000);
    assert!(s.is_valid());
    assert!(!GenSettings::new_from_values((usize::MAX, ImgRepeat::Clamp, CaptureHeight::Generated, 1000)).is_valid());
    assert_eq!(ImgRepeat::from_choice(Some(2)), ImgRepeat::Clamp);
    assert_eq!(ImgRepeat::from_choice(Some(1)), ImgRepeat::Repeat);
    assert_eq!(ImgRepeat::from_choice(Some(7)), ImgRepeat::Repeat);
    assert_eq!(ImgRepeat::from_choice(None), ImgRepeat::Repeat);
    assert_eq!(CaptureHeight::from_value(Some(9)), CaptureHeight::UserDefined(9));
    assert_eq!(CaptureHeight::from_value(None), CaptureHeight::Generated);
}

#[test]
fn output_filename_inserts_marker() {
    assert_eq!(get_output_filename("img.png"), Some(String::from("img_output.png")));
    assert_eq!(get_output_filename("dir.d/sub/height.map.bmp"), Some(String::from("dir.d/sub/height.map_output.bmp")));
    assert_eq!(get_output_filename("/tmp/a.b"), Some(String::from("/tmp/a_output.b")));
    assert_eq!(get_output_filename("noext"), None);
    assert_eq!(get_output_filename("dir.d/noext"), None);
    assert_eq!(get_output_filename(".hidden"), None);
    assert_eq!(get_output_filename("dir/.hidden"), None);
}
