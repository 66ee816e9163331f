use vstd::prelude::*;
use crate::color::{
    blue, distance_sq, green, lemma_channels_determine, lemma_nearest_index, nearest_among,
    nearest_index, red,
};

verus! {

/// The eight-level gray ramp, from black up in steps of `0x20`.
pub open spec fn grayscale_8_colors() -> Seq<u32> {
    seq![0x000000u32, 0x202020, 0x404040, 0x606060, 0x808080, 0xa0a0a0, 0xc0c0c0, 0xe0e0e0]
}

/// The seven colors of the display's pigments, in the order of their hardware indices:
/// black, white, green, blue, red, yellow, orange.
pub open spec fn acep_7_colors() -> Seq<u32> {
    seq![0x000000u32, 0xffffff, 0x00ff00, 0x0000ff, 0xff0000, 0xffff00, 0xff8000]
}

/// A palette of distinct `0xRRGGBB` colors.
pub open spec fn palette_wf(palette: Seq<u32>) -> bool {
    &&& palette.len() > 0
    &&& forall|i: int| 0 <= i < palette.len() ==> #[trigger] palette[i] <= 0xffffff
    &&& forall|i: int, j: int|
        0 <= i < palette.len() && 0 <= j < palette.len() && i != j ==> palette[i] != palette[j]
}

pub fn palette_8_grayscale() -> (r: Vec<u32>)
    ensures
        r@ == grayscale_8_colors(),
{
    let r = vec![
        0x000000u32, 0x202020, 0x404040, 0x606060, 0x808080, 0xa0a0a0, 0xc0c0c0, 0xe0e0e0,
    ];
    assert(r@ =~= grayscale_8_colors());
    r
}

pub fn palette_7_acep() -> (r: Vec<u32>)
    ensures
        r@ == acep_7_colors(),
{
    let r = vec![
        0x000000u32,  // black
        0xffffff,  // white
        0x00ff00,  // green
        0x0000ff,  // blue
        0xff0000,  // red
        0xffff00,  // yellow
        0xff8000,  // orange
    ];
    assert(r@ =~= acep_7_colors());
    r
}

fn color_distance(color1: u32, color2: u32) -> (r: u32)
    ensures
        r == distance_sq(color1, color2),
{
    let r1 = (color1 >> 16 & 0xff) as u8;
    let r2 = (color2 >> 16 & 0xff) as u8;
    let g1 = (color1 >> 8 & 0xff) as u8;
    let g2 = (color2 >> 8 & 0xff) as u8;
    let b1 = (color1 & 0xff) as u8;
    let b2 = (color2 & 0xff) as u8;

    let dr: i64 = r1 as i64 - r2 as i64;
    let dg: i64 = g1 as i64 - g2 as i64;
    let db: i64 = b1 as i64 - b2 as i64;
    assert(dr * dr <= 65025) by (nonlinear_arith)
        requires
            -255 <= dr <= 255,
    ;
    assert(dg * dg <= 65025) by (nonlinear_arith)
        requires
            -255 <= dg <= 255,
    ;
    assert(db * db <= 65025) by (nonlinear_arith)
        requires
            -255 <= db <= 255,
    ;
    assert(0 <= dr * dr && 0 <= dg * dg && 0 <= db * db) by (nonlinear_arith);
    (dr * dr + dg * dg + db * db) as u32
}

/// Index of the palette entry nearest to `color` by squared RGB distance; of
/// several entries at the same distance the first one wins.
pub fn map_color_to_palette_index(color: u32, palette: &Vec<u32>) -> (r: usize)
    requires
        palette@.len() > 0,
    ensures
        r == nearest_index(color, palette@),
        r < palette@.len(),
        forall|j: int|
            0 <= j < palette@.len() ==> #[trigger] distance_sq(color, palette@[j])
                >= distance_sq(color, palette@[r as int]),
        forall|j: int|
            0 <= j < r ==> #[trigger] distance_sq(color, palette@[j]) > distance_sq(
                color,
                palette@[r as int],
            ),
{
    let mut current_index: usize = 0;
    let mut current_distance: u32 = color_distance(color, palette[0]);
    let mut i: usize = 1;
    while i < palette.len()
        invariant
            1 <= i <= palette@.len(),
            current_index == nearest_among(color, palette@, i as int),
            current_distance == distance_sq(color, palette@[current_index as int]),
        decreases palette@.len() - i,
    {
        let distance = color_distance(color, palette[i]);
        if distance < current_distance {
            current_distance = distance;
            current_index = i;
        }
        i += 1;
    }
    proof {
        lemma_nearest_index(color, palette@);
    }
    current_index
}

/// Looking up a palette's own entry finds that entry, at distance zero.
pub proof fn lemma_palette_self_fixpoint(palette: Seq<u32>, i: int)
    requires
        palette_wf(palette),
        0 <= i < palette.len(),
    ensures
        nearest_index(palette[i], palette) == i,
        distance_sq(palette[i], palette[i]) == 0,
{
    lemma_nearest_index(palette[i], palette);
    let k = nearest_index(palette[i], palette);
    assert(distance_sq(palette[i], palette[i]) == 0);
    let dr = red(palette[i]) - red(palette[k]);
    let dg = green(palette[i]) - green(palette[k]);
    let db = blue(palette[i]) - blue(palette[k]);
    assert(dr * dr + dg * dg + db * db <= 0);
    assert(dr == 0 && dg == 0 && db == 0) by (nonlinear_arith)
        requires
            dr * dr + dg * dg + db * db <= 0,
    ;
    lemma_channels_determine(palette[i], palette[k]);
}

} // verus!
