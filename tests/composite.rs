use cga_artifact_color::composite::{get_cycle_hdot, process_cga_composite, process_cga_composite_int};

fn row_of(rgb: (u8, u8, u8), w: usize) -> Vec<u8> {
    let mut v = Vec::new();
    for _ in 0..w {
        v.extend_from_slice(&[rgb.0, rgb.1, rgb.2, 255]);
    }
    v
}

#[test]
fn hdot_cycles_every_four_columns() {
    assert_eq!(get_cycle_hdot(0), 0);
    assert_eq!(get_cycle_hdot(5), 1);
    assert_eq!(get_cycle_hdot(639), 3);
    assert_eq!(get_cycle_hdot(-5), 1);
}

#[test]
fn bright_white_row_is_full_scale() {
    let img = row_of((255, 255, 255), 640);
    let mut out = vec![0u8; 1280];
    process_cga_composite_int(&img, &mut out, 640, 1);
    assert_eq!(out.len(), 1280);
    assert!(out.iter().all(|&s| s == ((255u32 * 768) >> 10) as u8 + 64));
    assert!(out.iter().all(|&s| s == 255));
    let mut out2 = vec![0u8; 1280];
    process_cga_composite(&img, &mut out2, 640, 1);
    assert!(out2.iter().all(|&s| s == 255));
}

#[test]
fn black_row_is_zero() {
    let img = row_of((0, 0, 0), 640);
    let mut out = vec![7u8; 1280];
    process_cga_composite_int(&img, &mut out, 640, 1);
    assert!(out.iter().all(|&s| s == 0));
    let mut out2 = vec![7u8; 1280];
    process_cga_composite(&img, &mut out2, 640, 1);
    assert!(out2.iter().all(|&s| s == 0));
}

#[test]
fn output_is_double_width() {
    let img = row_of((0xAA, 0xAA, 0xAA), 6);
    let mut out = vec![1u8; 2 * 6 + 3];
    process_cga_composite_int(&img, &mut out, 3, 2);
    assert_eq!(&out[..12], &[191u8; 12][..]);
    assert_eq!(&out[12..], &[1u8, 1, 1][..]);
}

#[test]
fn fixed_point_path_has_no_edge_attenuation() {
    let img = row_of((0, 0, 0xAA), 4);
    let mut out = vec![0u8; 8];
    process_cga_composite_int(&img, &mut out, 4, 1);
    assert_eq!(out, vec![0, 0, 0, 191, 191, 191, 191, 0]);
}

#[test]
fn slew_path_attenuates_color_clock_edges() {
    let img = row_of((0, 0, 0xAA), 4);
    let mut out = vec![0u8; 8];
    process_cga_composite(&img, &mut out, 4, 1);
    assert_eq!(out, vec![0, 0, 0, 153, 191, 191, 153, 0]);
}

#[test]
fn slew_path_bright_blue() {
    let img = row_of((0x55, 0x55, 0xFF), 4);
    let mut out = vec![0u8; 8];
    process_cga_composite(&img, &mut out, 4, 1);
    assert_eq!(out, vec![63, 63, 63, 216, 255, 255, 216, 63]);
}

#[test]
fn slew_path_sees_right_neighbour() {
    // Green (index 2) then black: the second half-dot of the green pixel falls into black.
    let mut img = row_of((0, 0xAA, 0), 1);
    img.extend(row_of((0, 0, 0), 1));
    let mut out = vec![0u8; 4];
    process_cga_composite(&img, &mut out, 2, 1);
    assert_eq!(out, vec![191, 153, 0, 0]);
}

#[test]
fn intensity_bit_never_lowers_a_sample() {
    let pairs = [
        ((0, 0, 0xAA), (0x55, 0x55, 0xFF)),
        ((0xAA, 0, 0xAA), (0xFF, 0x55, 0xFF)),
        ((0, 0, 0), (0x55, 0x55, 0x55)),
    ];
    for (dim, bright) in pairs {
        let a = row_of(dim, 8);
        let b = row_of(bright, 8);
        let mut oa = vec![0u8; 16];
        let mut ob = vec![0u8; 16];
        process_cga_composite_int(&a, &mut oa, 8, 1);
        process_cga_composite_int(&b, &mut ob, 8, 1);
        assert!(oa.iter().zip(ob.iter()).all(|(x, y)| y >= x));
        process_cga_composite(&a, &mut oa, 8, 1);
        process_cga_composite(&b, &mut ob, 8, 1);
        assert!(oa.iter().zip(ob.iter()).all(|(x, y)| y >= x));
    }
}
