use inkplate_dither::dithering::{
    apply_error_diffusion, atkinson, floyd_steinberg, jarvis_judice_ninke, none,
};
use inkplate_dither::inkplate::{inkplate_raw, is_hardware_quantized};
use inkplate_dither::palette::{map_color_to_palette_index, palette_7_acep, palette_8_grayscale};
use inkplate_dither::pipeline::image_dithered;
use inkplate_dither::raster::{get_pixel, Raster, Rgba};

fn px(color: u32) -> Rgba {
    Rgba { r: (color >> 16) as u8, g: (color >> 8) as u8, b: color as u8, a: 0x80 }
}

fn gray(v: u32) -> u32 {
    v << 16 | v << 8 | v
}

fn raster(width: u32, height: u32, colors: &[u32]) -> Raster {
    Raster::new(width, height, colors.iter().map(|&c| px(c)).collect()).unwrap()
}

fn colors(image: &Raster) -> Vec<u32> {
    let mut out = Vec::new();
    for y in 0..image.height {
        for x in 0..image.width {
            out.push(get_pixel(image, x, y));
        }
    }
    out
}

/// Gray levels `0..=top`, so every level up to `top` is kept exactly.
fn gray_ramp(top: u32) -> Vec<u32> {
    (0..=top).map(gray).collect()
}

fn sample_raster() -> Raster {
    raster(
        4,
        3,
        &[
            0x123456, 0xfedcba, 0x808080, 0x7f7f7f, 0x00ff10, 0xff8040, 0x404040, 0x9a9a9a,
            0x0f0f0f, 0xffffff, 0x313131, 0xe0e1e2,
        ],
    )
}

#[test]
fn no_op_kernel_is_plain_nearest_color_mapping() {
    for palette in [palette_8_grayscale(), palette_7_acep()] {
        let image = sample_raster();
        let expected: Vec<u32> =
            colors(&image).iter().map(|&c| palette[map_color_to_palette_index(c, &palette)]).collect();
        let out = apply_error_diffusion(image, none(), palette.clone());
        assert_eq!(colors(&out), expected);
        assert!(out.pixels.iter().all(|p| p.a == 0xff));
    }
}

#[test]
fn diffusion_is_deterministic() {
    let first = image_dithered(sample_raster());
    let second = image_dithered(sample_raster());
    assert_eq!(first.pixels, second.pixels);
    assert_eq!(inkplate_raw(&first), inkplate_raw(&second));
}

#[test]
fn palette_entries_map_to_themselves() {
    for palette in [palette_8_grayscale(), palette_7_acep()] {
        for (i, &c) in palette.iter().enumerate() {
            assert_eq!(map_color_to_palette_index(c, &palette), i);
        }
    }
}

#[test]
fn nearest_color_ties_go_to_lowest_index() {
    let palette = vec![0x000000, 0x202020];
    assert_eq!(map_color_to_palette_index(0x101010, &palette), 0);
    let palette = vec![0x202020, 0x000000];
    assert_eq!(map_color_to_palette_index(0x101010, &palette), 0);
}

#[test]
fn nearest_color_uses_rgb_distance() {
    let palette = palette_7_acep();
    assert_eq!(map_color_to_palette_index(0xf07010, &palette), 6);
    assert_eq!(map_color_to_palette_index(0x10e020, &palette), 2);
    assert_eq!(map_color_to_palette_index(0x202020, &palette), 0);
    assert_eq!(map_color_to_palette_index(0xe0e0e0, &palette), 1);
}

#[test]
fn single_pixel_error_is_dropped() {
    for kernel in [floyd_steinberg(), jarvis_judice_ninke(), atkinson(), none()] {
        let out = apply_error_diffusion(raster(1, 1, &[0x303030]), kernel, palette_8_grayscale());
        assert_eq!(colors(&out), vec![0x202020]);
        assert_eq!(out.pixels[0].a, 0xff);
    }
}

#[test]
fn last_pixel_error_reaches_no_other_pixel() {
    // The bottom-right pixel is the last one finalized; every causal tap of it
    // lies outside, so the rest equals the same raster with that pixel changed.
    let palette = palette_8_grayscale();
    let a = apply_error_diffusion(
        raster(2, 2, &[0x101010, 0x505050, 0x909090, 0x303030]),
        floyd_steinberg(),
        palette.clone(),
    );
    let b = apply_error_diffusion(
        raster(2, 2, &[0x101010, 0x505050, 0x909090, 0x3f3f3f]),
        floyd_steinberg(),
        palette,
    );
    assert_eq!(colors(&a)[..3], colors(&b)[..3]);
}

#[test]
fn floyd_steinberg_weights_and_divisor() {
    // Error 120 goes 7/16 right, 5/16 below, 1/16 below right.
    let out = apply_error_diffusion(
        raster(2, 2, &[gray(200), 0, 0, 0]),
        floyd_steinberg(),
        gray_ramp(80),
    );
    assert_eq!(colors(&out), vec![gray(80), gray(52), gray(37), gray(7)]);
}

#[test]
fn jarvis_judice_ninke_weights_and_divisor() {
    // Error 160 goes 7/48 and 5/48 to the two pixels to the right.
    let out = apply_error_diffusion(
        raster(3, 1, &[gray(200), 0, 0]),
        jarvis_judice_ninke(),
        gray_ramp(40),
    );
    assert_eq!(colors(&out), vec![gray(40), gray(23), gray(16)]);
}

#[test]
fn atkinson_weights_and_divisor() {
    // Six weights of 1, divided by their sum: error 120 gives 20 to each tap.
    let out =
        apply_error_diffusion(raster(3, 3, &[gray(200), 0, 0, 0, 0, 0, 0, 0, 0]), atkinson(), gray_ramp(80));
    assert_eq!(
        colors(&out),
        vec![gray(80), gray(20), gray(20), gray(20), gray(20), 0, gray(20), 0, 0]
    );
}

#[test]
fn diffused_error_changes_the_next_choice() {
    let palette = palette_8_grayscale();
    // Alone, 0x10 is as far from 0x00 as from 0x20 and goes to 0x00; with
    // the +16 error of 0x30 (7/16 of it is 7) it goes to 0x20.
    let plain = apply_error_diffusion(raster(2, 1, &[0x303030, 0x101010]), none(), palette.clone());
    assert_eq!(colors(&plain), vec![0x202020, 0x000000]);
    let dithered =
        apply_error_diffusion(raster(2, 1, &[0x303030, 0x101010]), floyd_steinberg(), palette);
    assert_eq!(colors(&dithered), vec![0x202020, 0x202020]);
}

#[test]
fn negative_error_is_truncated_toward_zero() {
    // 0x59 goes to 0x60 with error -7; 7/16 of it is -3 toward zero (not -4),
    // so 0x14 becomes 0x11 and is nearer to 0x20 than to 0x00.
    let out = apply_error_diffusion(
        raster(2, 1, &[gray(0x59), gray(0x14)]),
        floyd_steinberg(),
        palette_8_grayscale(),
    );
    assert_eq!(colors(&out), vec![0x606060, 0x202020]);
}

#[test]
fn diffused_values_are_clamped() {
    // 0xf0 with a palette of black only: error 240 pushes its neighbour past
    // 255, which is held at 255; the neighbour's own error is then 255.
    let palette = vec![0x000000, 0xffffff];
    let out = apply_error_diffusion(
        raster(3, 1, &[gray(0x70), gray(0xf0), gray(0x00)]),
        floyd_steinberg(),
        palette,
    );
    // 0x70 -> black, error 112, +49 to 0xf0 gives 255 -> white, error 0;
    // the third pixel receives 0 then 0 and stays black.
    assert_eq!(colors(&out), vec![0x000000, 0xffffff, 0x000000]);
}

#[test]
fn output_pixels_are_palette_colors_and_opaque() {
    let palette = palette_7_acep();
    let out = apply_error_diffusion(sample_raster(), atkinson(), palette.clone());
    for c in colors(&out) {
        assert!(palette.contains(&c));
    }
    assert!(out.pixels.iter().all(|p| p.a == 0xff));
}

#[test]
fn dithered_image_is_packable() {
    let out = image_dithered(sample_raster());
    assert!(is_hardware_quantized(&out));
    assert_eq!(inkplate_raw(&out).len(), 3 * 2);
}

#[test]
fn raster_rejects_wrong_pixel_count() {
    assert!(Raster::new(2, 2, vec![px(0); 3]).is_none());
    assert!(Raster::new(2, 2, vec![px(0); 4]).is_some());
    assert!(Raster::new(0, 5, vec![]).is_some());
}

#[test]
fn get_pixel_reads_row_major() {
    let image = raster(2, 2, &[0x010203, 0x040506, 0x070809, 0x0a0b0c]);
    assert_eq!(get_pixel(&image, 1, 0), 0x040506);
    assert_eq!(get_pixel(&image, 0, 1), 0x070809);
}
