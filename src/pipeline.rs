use vstd::prelude::*;
use crate::color::lemma_unpack_pack;
use crate::dithering::{
    apply_error_diffusion, diffused, is_palette_pixel, jarvis_judice_ninke,
    jarvis_judice_ninke_kernel, Dithering,
};
use crate::inkplate::{hardware_colors_only, hardware_index_of, packed_rows};
use crate::palette::{acep_7_colors, palette_7_acep};
use crate::raster::{opaque, rgb_of, Raster, Rgba};

verus! {

/// The renderings of one picture that are served and kept: the cropped,
/// dithered and rotated images as encoded files, and the display's bytes.
#[derive(Clone, Debug)]
pub struct ProcessedImage {
    pub cropped: Vec<u8>,
    pub dithered: Vec<u8>,
    pub rotated: Vec<u8>,
    pub inkplate: Vec<u8>,
}

/// Each of the seven display colors maps to its own position in the palette.
pub proof fn lemma_acep_hardware_index(k: int)
    requires
        0 <= k < 7,
    ensures
        hardware_index_of(acep_7_colors()[k]) == Some(k as u8),
        rgb_of(opaque(acep_7_colors()[k])) == acep_7_colors()[k],
{
    let c = acep_7_colors()[k];
    assert(k == 0 || k == 1 || k == 2 || k == 3 || k == 4 || k == 5 || k == 6);
    lemma_unpack_pack(c);
}

/// Pixels quantized to the seven-color palette can all be packed.
pub proof fn lemma_acep_pixels_packable(pixels: Seq<Rgba>)
    requires
        forall|i: int|
            0 <= i < pixels.len() ==> is_palette_pixel(#[trigger] pixels[i], acep_7_colors()),
    ensures
        hardware_colors_only(pixels),
{
    assert forall|i: int| 0 <= i < pixels.len() implies (#[trigger] hardware_index_of(
        rgb_of(pixels[i]),
    )) is Some by {
        assert(is_palette_pixel(pixels[i], acep_7_colors()));
        let k = choose|k: int|
            0 <= k < acep_7_colors().len() && pixels[i] == opaque(#[trigger] acep_7_colors()[k]);
        lemma_acep_hardware_index(k);
    }
}

/// Dithers `image` for the seven-color display: Jarvis–Judice–Ninke diffusion
/// onto the display's palette. The result can be handed to `inkplate_raw`.
pub fn image_dithered(image: Raster) -> (r: Raster)
    requires
        image.wf(),
    ensures
        r.wf(),
        r.width == image.width,
        r.height == image.height,
        r.pixels@ == diffused(
            image.pixels@,
            image.width as int,
            image.height as int,
            jarvis_judice_ninke_kernel(),
            acep_7_colors(),
        ),
        hardware_colors_only(r.pixels@),
{
    let dithered = apply_error_diffusion(image, jarvis_judice_ninke(), palette_7_acep());
    proof {
        lemma_acep_pixels_packable(dithered.pixels@);
    }
    dithered
}

/// Two runs on the same raster, kernel and palette give the same quantized
/// pixels, and packing those gives the same bytes.
pub proof fn lemma_runs_agree(
    image: Raster,
    dither: Dithering,
    palette: Seq<u32>,
    first: Raster,
    second: Raster,
    first_bytes: Seq<u8>,
    second_bytes: Seq<u8>,
)
    requires
        first.width == image.width && first.height == image.height,
        second.width == image.width && second.height == image.height,
        first.pixels@ == diffused(image.pixels@, first.width as int, first.height as int, dither, palette),
        second.pixels@ == diffused(image.pixels@, second.width as int, second.height as int, dither, palette),
        first_bytes == packed_rows(first.pixels@, first.width as int, first.height as int),
        second_bytes == packed_rows(second.pixels@, second.width as int, second.height as int),
    ensures
        first.pixels@ == second.pixels@,
        first_bytes == second_bytes,
{
}

} // verus!
