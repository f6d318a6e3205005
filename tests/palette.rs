use cga_artifact_color::palette::{cga_rgb, convert_rgb_to_cga_idx, rgb_to_cga, RGBColor};

#[test]
fn black_and_white_map_to_their_indices() {
    assert_eq!(rgb_to_cga(RGBColor::new(0, 0, 0)), 0);
    assert_eq!(rgb_to_cga(RGBColor::new(255, 255, 255)), 15);
}

#[test]
fn every_palette_entry_maps_to_itself() {
    for i in 0..16usize {
        assert_eq!(rgb_to_cga(cga_rgb(i)) as usize, i);
    }
}

#[test]
fn repeated_calls_agree() {
    let c = RGBColor::new(123, 45, 210);
    let first = rgb_to_cga(c);
    for _ in 0..10 {
        assert_eq!(rgb_to_cga(c), first);
    }
}

#[test]
fn equidistant_input_takes_lower_index() {
    // (0, 0, 0x55) is 0x55 away from black (0) and from blue (1).
    assert_eq!(rgb_to_cga(RGBColor::new(0, 0, 0x55)), 0);
}

#[test]
fn nearest_entry_is_chosen() {
    assert_eq!(rgb_to_cga(RGBColor::new(200, 10, 10)), 4);
    assert_eq!(rgb_to_cga(RGBColor::new(250, 250, 90)), 14);
    assert_eq!(rgb_to_cga(RGBColor::new(0x50, 0x50, 0x50)), 8);
}

#[test]
fn raster_is_quantized_pixel_by_pixel() {
    let img: Vec<u8> = vec![
        0, 0, 0, 255, //
        0xAA, 0, 0, 255, //
        0x55, 0xFF, 0x55, 255, //
        255, 255, 255, 255, //
    ];
    let mut out = vec![99u8; 5];
    convert_rgb_to_cga_idx(&img, &mut out, 2, 2);
    assert_eq!(out, vec![0, 4, 10, 15, 99]);
}
