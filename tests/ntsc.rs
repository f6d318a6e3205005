use cga_artifact_color::ntsc::{sample_gy_xy, sample_rgb_xy};
use cga_artifact_color::palette::RGBColor;

#[test]
fn gray_sampling_clamps_at_borders() {
    let img: Vec<u8> = vec![1, 2, 3, 4, 5, 6];
    assert_eq!(sample_gy_xy(&img, 3, 2, 1, 1), 5);
    assert_eq!(sample_gy_xy(&img, 3, 2, -1, 0), sample_gy_xy(&img, 3, 2, 0, 0));
    assert_eq!(sample_gy_xy(&img, 3, 2, 3, 1), sample_gy_xy(&img, 3, 2, 2, 1));
    assert_eq!(sample_gy_xy(&img, 3, 2, 1, -1), 2);
    assert_eq!(sample_gy_xy(&img, 3, 2, 1, 2), 5);
    assert_eq!(sample_gy_xy(&img, 3, 2, -100, 100), 4);
}

#[test]
fn rgb_sampling_clamps_at_borders() {
    let img: Vec<u8> = vec![
        10, 11, 12, 255, //
        20, 21, 22, 255, //
    ];
    assert_eq!(sample_rgb_xy(&img, 2, 1, 1, 0), RGBColor::new(20, 21, 22));
    assert_eq!(sample_rgb_xy(&img, 2, 1, -1, 0), RGBColor::new(10, 11, 12));
    assert_eq!(sample_rgb_xy(&img, 2, 1, 2, 0), RGBColor::new(20, 21, 22));
    assert_eq!(sample_rgb_xy(&img, 2, 1, 0, 1), RGBColor::new(10, 11, 12));
}
