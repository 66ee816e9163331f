use inkplate_dither::inkplate::{inkplate_raw, is_hardware_quantized};
use inkplate_dither::raster::{Raster, Rgba};

fn px(color: u32) -> Rgba {
    Rgba { r: (color >> 16) as u8, g: (color >> 8) as u8, b: color as u8, a: 255 }
}

fn raster(width: u32, height: u32, colors: &[u32]) -> Raster {
    Raster::new(width, height, colors.iter().map(|&c| px(c)).collect()).unwrap()
}

const BLACK: u32 = 0x000000;
const WHITE: u32 = 0xffffff;
const GREEN: u32 = 0x00ff00;
const BLUE: u32 = 0x0000ff;
const RED: u32 = 0xff0000;
const YELLOW: u32 = 0xffff00;
const ORANGE: u32 = 0xff8000;

#[test]
fn packing_parity_odd_width() {
    let image = raster(1, 1, &[GREEN]);
    assert_eq!(inkplate_raw(&image), vec![0x04, 0x04]);
}

#[test]
fn even_width_pixel_loss() {
    let image = raster(4, 1, &[BLACK, WHITE, GREEN, BLUE]);
    assert_eq!(inkplate_raw(&image), vec![0x00, 0x24]);
}

#[test]
fn odd_width_rows_are_padded_each() {
    // Row 0: indices 4, 5, 6; row 1: indices 1, 0, 3.
    let image = raster(3, 2, &[RED, YELLOW, ORANGE, WHITE, BLACK, BLUE]);
    assert_eq!(inkplate_raw(&image), vec![0x08, 0xac, 0xac, 0x02, 0x06, 0x06]);
}

#[test]
fn width_two_emits_first_pixel_only() {
    let image = raster(2, 2, &[ORANGE, ORANGE, WHITE, RED]);
    assert_eq!(inkplate_raw(&image), vec![0x0c, 0x02]);
}

#[test]
fn width_five_row() {
    let image = raster(5, 1, &[WHITE, GREEN, BLUE, RED, YELLOW]);
    // x0 alone: 0x02; x1|x2: 0x40|0x06; x3|x4: 0x80|0x0a; padding repeats the last.
    assert_eq!(inkplate_raw(&image), vec![0x02, 0x46, 0x8a, 0x8a]);
}

#[test]
fn empty_raster_packs_to_nothing() {
    let image = raster(0, 0, &[]);
    assert_eq!(inkplate_raw(&image), Vec::<u8>::new());
}

#[test]
fn hardware_check_accepts_the_seven_colors() {
    let image = raster(7, 1, &[BLACK, WHITE, GREEN, BLUE, RED, YELLOW, ORANGE]);
    assert!(is_hardware_quantized(&image));
}

#[test]
fn hardware_check_rejects_other_colors() {
    let image = raster(2, 1, &[BLACK, 0x808080]);
    assert!(!is_hardware_quantized(&image));
}

#[test]
fn packing_is_deterministic() {
    let image = raster(3, 2, &[RED, YELLOW, ORANGE, WHITE, BLACK, BLUE]);
    assert_eq!(inkplate_raw(&image), inkplate_raw(&image));
}

