use vstd::prelude::*;
use crate::palette::acep_7_colors;
use crate::raster::{get_pixel, index_of, lemma_index_in_bounds, rgb_of, Raster, Rgba};

verus! {

/// The display's three-bit index of a color of its seven-color set: black 0,
/// white 1, green 2, blue 3, red 4, yellow 5, orange 6.
pub open spec fn hardware_index_of(color: u32) -> Option<u8> {
    if color == 0x000000 {
        Some(0u8)
    } else if color == 0xffffff {
        Some(1u8)
    } else if color == 0x00ff00 {
        Some(2u8)
    } else if color == 0x0000ff {
        Some(3u8)
    } else if color == 0xff0000 {
        Some(4u8)
    } else if color == 0xffff00 {
        Some(5u8)
    } else if color == 0xff8000 {
        Some(6u8)
    } else {
        None
    }
}

/// Whether every pixel of `pixels` shows one of the display's seven colors.
pub open spec fn hardware_colors_only(pixels: Seq<Rgba>) -> bool {
    forall|i: int|
        0 <= i < pixels.len() ==> (#[trigger] hardware_index_of(rgb_of(pixels[i]))) is Some
}

/// The hardware index of each pixel of row `y`.
pub open spec fn row_indices(pixels: Seq<Rgba>, w: int, y: int) -> Seq<u8> {
    Seq::new(w as nat, |x: int| hardware_index_of(rgb_of(pixels[index_of(w, x, y)])).unwrap())
}

/// Index `i` shifted into the high nibble.
pub open spec fn high_nibble(i: u8) -> u8 {
    ((i << 1u8) << 4u8) & 0xf0u8
}

/// Index `i` shifted into the low nibble.
pub open spec fn low_nibble(i: u8) -> u8 {
    i << 1u8
}

/// The `k`-th byte emitted for a row of indices: pixel `2k` in the low nibble
/// over pixel `2k - 1` in the high nibble, or over an empty one for `k == 0`.
pub open spec fn pair_byte(row: Seq<u8>, k: int) -> u8 {
    (if k == 0 {
        0u8
    } else {
        high_nibble(row[2 * k - 1])
    }) | low_nibble(row[2 * k])
}

/// The bytes of one row: one byte per even column, then, when the width is
/// odd, the last of them again as padding. The last pixel of a row of even
/// width is never emitted.
pub open spec fn packed_row(row: Seq<u8>) -> Seq<u8> {
    let n = row.len() as int;
    let emitted = Seq::new(((n + 1) / 2) as nat, |k: int| pair_byte(row, k));
    if n % 2 == 1 {
        emitted.push(pair_byte(row, (n - 1) / 2))
    } else {
        emitted
    }
}

/// The packed bytes of the first `h` rows of a raster `w` pixels wide.
pub open spec fn packed_rows(pixels: Seq<Rgba>, w: int, h: int) -> Seq<u8>
    decreases h,
{
    if h <= 0 {
        Seq::empty()
    } else {
        packed_rows(pixels, w, h - 1) + packed_row(row_indices(pixels, w, h - 1))
    }
}

/// Number of bytes a row of width `w` packs into: one per even column, plus
/// the padding byte when `w` is odd.
pub open spec fn packed_row_len(w: int) -> int {
    if w % 2 == 1 {
        (w + 1) / 2 + 1
    } else {
        w / 2
    }
}

/// The stream holds the same number of bytes for every row.
pub proof fn lemma_packed_rows_len(pixels: Seq<Rgba>, w: int, h: int)
    requires
        0 <= w,
        0 <= h,
    ensures
        packed_rows(pixels, w, h).len() == h * packed_row_len(w),
    decreases h,
{
    if h > 0 {
        lemma_packed_rows_len(pixels, w, h - 1);
        assert(packed_row(row_indices(pixels, w, h - 1)).len() == packed_row_len(w));
        assert((h - 1) * packed_row_len(w) + packed_row_len(w) == h * packed_row_len(w))
            by (nonlinear_arith);
        assert(packed_rows(pixels, w, h).len() == packed_rows(pixels, w, h - 1).len()
            + packed_row(row_indices(pixels, w, h - 1)).len());
    } else {
        assert(h * packed_row_len(w) == 0) by (nonlinear_arith)
            requires
                h == 0,
        ;
    }
}

/// What a row has emitted after its first `x` columns.
spec fn row_prefix(row: Seq<u8>, x: int) -> Seq<u8> {
    let emitted = Seq::new(((x + 1) / 2) as nat, |k: int| pair_byte(row, k));
    if x == row.len() && x % 2 == 1 {
        emitted.push(pair_byte(row, (x - 1) / 2))
    } else {
        emitted
    }
}

/// The byte being assembled after the first `x` columns of a row.
spec fn accumulator(row: Seq<u8>, x: int) -> u8 {
    if x == 0 {
        0u8
    } else if (x - 1) % 2 == 1 {
        high_nibble(row[x - 1])
    } else {
        pair_byte(row, (x - 1) / 2)
    }
}

#[inline(always)]
fn is_odd(value: u32) -> (r: bool)
    ensures
        r == (value % 2 == 1),
{
    assert(value & 1u32 == 1u32 <==> value % 2 == 1) by (bit_vector);
    value & 0x1 == 0x1
}

fn hardware_index(color: u32) -> (r: Option<u8>)
    ensures
        r == hardware_index_of(color),
{
    match color {
        0x000000 => Some(0u8),
        0xffffff => Some(1u8),
        0x00ff00 => Some(2u8),
        0x0000ff => Some(3u8),
        0xff0000 => Some(4u8),
        0xffff00 => Some(5u8),
        0xff8000 => Some(6u8),
        _ => None,
    }
}

/// Whether every pixel of `image` shows one of the display's seven colors,
/// as `inkplate_raw` needs.
pub fn is_hardware_quantized(image: &Raster) -> (r: bool)
    ensures
        r == hardware_colors_only(image.pixels@),
{
    let mut i: usize = 0;
    while i < image.pixels.len()
        invariant
            i <= image.pixels@.len(),
            forall|j: int|
                0 <= j < i ==> (#[trigger] hardware_index_of(rgb_of(image.pixels@[j]))) is Some,
        decreases image.pixels@.len() - i,
    {
        let p = image.pixels[i];
        let color = (p.r as u32) << 16 | (p.g as u32) << 8 | (p.b as u32);
        assert(color == rgb_of(image.pixels@[i as int]));
        if hardware_index(color).is_none() {
            assert(!(hardware_index_of(rgb_of(image.pixels@[i as int])) is Some));
            return false;
        }
        i += 1;
    }
    true
}

/// Packs a raster of the display's seven colors into its wire format, two
/// three-bit indices per byte, each row starting a new byte.
pub fn inkplate_raw(dithered: &Raster) -> (r: Vec<u8>)
    requires
        dithered.wf(),
        hardware_colors_only(dithered.pixels@),
    ensures
        r@ == packed_rows(dithered.pixels@, dithered.width as int, dithered.height as int),
        r@.len() == dithered.height * packed_row_len(dithered.width as int),
{
    let width = dithered.width;
    let height = dithered.height;
    let ghost pixels = dithered.pixels@;
    let ghost w = width as int;

    let mut out_bytes: Vec<u8> = Vec::with_capacity(dithered.pixels.len() / 2);

    // Two pixels go into each byte, and every row starts a new byte, so a row
    // of odd width ends with a padding byte.
    let odd_width = is_odd(width);

    let mut y: u32 = 0;
    while y < height
        invariant
            y <= height,
            dithered.wf(),
            hardware_colors_only(pixels),
            pixels == dithered.pixels@,
            w == width,
            width == dithered.width,
            height == dithered.height,
            odd_width == (width % 2 == 1),
            out_bytes@ == packed_rows(pixels, w, y as int),
        decreases height - y,
    {
        let ghost row = row_indices(pixels, w, y as int);
        let ghost before = out_bytes@;
        let mut current_byte: u8 = 0x0;
        let mut x: u32 = 0;
        while x < width
            invariant
                x <= width,
                y < height,
                dithered.wf(),
                hardware_colors_only(pixels),
                pixels == dithered.pixels@,
                w == width,
                width == dithered.width,
                height == dithered.height,
                odd_width == (width % 2 == 1),
                row == row_indices(pixels, w, y as int),
                current_byte == accumulator(row, x as int),
                out_bytes@ == before + row_prefix(row, x as int),
            decreases width - x,
        {
            proof {
                lemma_index_in_bounds(w, height as int, x as int, y as int);
            }
            let color_pixel = get_pixel(dithered, x, y);
            let indexed_pixel = hardware_index(color_pixel).unwrap();
            assert(indexed_pixel == row[x as int]);
            let ghost out_before = out_bytes@;

            if is_odd(x) {
                // First of two pixels: the high nibble.
                current_byte = ((indexed_pixel << 1) << 4) & 0xf0;
            } else {
                // Second of two pixels: the low nibble, and the byte is done.
                current_byte = current_byte | (indexed_pixel << 1);
                out_bytes.push(current_byte);
            }

            if odd_width && x == width - 1 {
                // A last byte with padding before the next row.
                out_bytes.push(current_byte);
            }
            proof {
                let n = x as int + 1;
                let done = row_prefix(row, x as int);
                let byte = pair_byte(row, x as int / 2);
                assert(row_prefix(row, n) =~= if x % 2 == 1 {
                    done
                } else if n == w && w % 2 == 1 {
                    done.push(byte).push(byte)
                } else {
                    done.push(byte)
                });
                assert(out_bytes@ =~= before + row_prefix(row, n));
            }
            x += 1;
        }
        proof {
            assert(row_prefix(row, w) =~= packed_row(row));
            assert(out_bytes@ =~= packed_rows(pixels, w, y + 1));
        }
        y += 1;
    }
    proof {
        lemma_packed_rows_len(pixels, w, height as int);
    }
    out_bytes
}

} // verus!
