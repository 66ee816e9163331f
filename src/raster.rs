use vstd::prelude::*;
use crate::color::{blue, green, lemma_pack_channels, pack_rgb, red};

verus! {

/// One pixel: red, green, blue and alpha samples.
#[derive(Clone, Copy, PartialEq, Eq, Structural, Debug)]
pub struct Rgba {
    pub r: u8,
    pub g: u8,
    pub b: u8,
    pub a: u8,
}

/// The `0xRRGGBB` color of a pixel, alpha left out.
pub open spec fn rgb_of(p: Rgba) -> u32 {
    pack_rgb(p.r, p.g, p.b)
}

/// The fully opaque pixel of a `0xRRGGBB` color.
pub open spec fn opaque(c: u32) -> Rgba {
    Rgba { r: red(c), g: green(c), b: blue(c), a: 255 }
}

/// A `width` by `height` grid of pixels, stored row by row.
#[derive(Clone, Debug)]
pub struct Raster {
    pub width: u32,
    pub height: u32,
    pub pixels: Vec<Rgba>,
}

/// Position of pixel `(x, y)` in a row-major grid `w` pixels wide.
pub open spec fn index_of(w: int, x: int, y: int) -> int {
    y * w + x
}

pub proof fn lemma_index_in_bounds(w: int, h: int, x: int, y: int)
    requires
        0 <= x < w,
        0 <= y < h,
    ensures
        0 <= index_of(w, x, y) < w * h,
        index_of(w, x, y) + w - x <= w * h,
{
    assert(0 <= y * w) by (nonlinear_arith)
        requires
            0 <= y,
            0 <= w,
    ;
    assert((y + 1) * w <= h * w) by (nonlinear_arith)
        requires
            y + 1 <= h,
            0 <= w,
    ;
    assert((y + 1) * w == y * w + w) by (nonlinear_arith);
    assert(h * w == w * h) by (nonlinear_arith);
}

impl Raster {
    /// The pixel grid holds exactly `width * height` pixels.
    pub open spec fn wf(&self) -> bool {
        self.pixels@.len() == self.width * self.height
    }

    /// A raster from its pixels in row-major order; `None` when their number
    /// is not `width * height`.
    pub fn new(width: u32, height: u32, pixels: Vec<Rgba>) -> (r: Option<Raster>)
        ensures
            r is Some <==> pixels@.len() == width * height,
            r matches Some(img) ==> img.width == width && img.height == height && img.pixels@
                == pixels@,
    {
        let w = width as usize;
        let h = height as usize;
        if h == 0 {
            assert(width * height == 0);
            if pixels.len() == 0 {
                return Some(Raster { width, height, pixels });
            } else {
                return None;
            }
        }
        // The grid fits in memory only when `width * height` does not exceed the
        // number of pixels given, so compare by division to avoid overflow.
        if pixels.len() % h == 0 && pixels.len() / h == w {
            proof {
                let n = pixels@.len() as int;
                assert(n == (n / h as int) * h as int + n % (h as int)) by (nonlinear_arith)
                    requires
                        h > 0,
                ;
            }
            Some(Raster { width, height, pixels })
        } else {
            proof {
                let n = pixels@.len() as int;
                if n == width * height {
                    assert(n % (h as int) == 0 && n / (h as int) == w) by (nonlinear_arith)
                        requires
                            n == w * h,
                            h > 0,
                    ;
                }
            }
            None
        }
    }
}

/// The `0xRRGGBB` color of the pixel at `(x, y)`.
pub fn get_pixel(image: &Raster, x: u32, y: u32) -> (r: u32)
    requires
        image.wf(),
        x < image.width,
        y < image.height,
    ensures
        r == rgb_of(image.pixels@[index_of(image.width as int, x as int, y as int)]),
        r <= 0xffffff,
{
    proof {
        lemma_index_in_bounds(image.width as int, image.height as int, x as int, y as int);
    }
    let n = image.pixels.len();
    assert(y * image.width + x < n);
    let i = y as usize * image.width as usize + x as usize;
    let pixel = image.pixels[i];
    proof {
        lemma_pack_channels(pixel.r, pixel.g, pixel.b);
    }
    (pixel.r as u32) << 16 | (pixel.g as u32) << 8 | (pixel.b as u32)
}

/// Writes the color `new_pixel` at `(x, y)`, fully opaque.
pub(crate) fn set_pixel(image: &mut Raster, x: u32, y: u32, new_pixel: u32)
    requires
        old(image).wf(),
        x < old(image).width,
        y < old(image).height,
    ensures
        final(image).width == old(image).width,
        final(image).height == old(image).height,
        final(image).wf(),
        final(image).pixels@ == old(image).pixels@.update(
            index_of(old(image).width as int, x as int, y as int),
            opaque(new_pixel),
        ),
{
    proof {
        lemma_index_in_bounds(image.width as int, image.height as int, x as int, y as int);
    }
    let n = image.pixels.len();
    assert(y * image.width + x < n);
    let i = y as usize * image.width as usize + x as usize;
    assert(new_pixel >> 16u32 & 0xffu32 <= 0xffu32) by (bit_vector);
    assert(new_pixel >> 8u32 & 0xffu32 <= 0xffu32) by (bit_vector);
    let pixel = Rgba {
        r: (new_pixel >> 16 & 0xff) as u8,
        g: (new_pixel >> 8 & 0xff) as u8,
        b: (new_pixel & 0xff) as u8,
        a: 0xffu8,
    };
    image.pixels.set(i, pixel);
}

} // verus!
