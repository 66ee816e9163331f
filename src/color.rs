use vstd::prelude::*;

verus! {

/// Red channel of a `0xRRGGBB` color.
pub open spec fn red(c: u32) -> u8 {
    ((c >> 16u32) & 0xffu32) as u8
}

/// Green channel of a `0xRRGGBB` color.
pub open spec fn green(c: u32) -> u8 {
    ((c >> 8u32) & 0xffu32) as u8
}

/// Blue channel of a `0xRRGGBB` color.
pub open spec fn blue(c: u32) -> u8 {
    (c & 0xffu32) as u8
}

/// The `0xRRGGBB` color with the given channels.
pub open spec fn pack_rgb(r: u8, g: u8, b: u8) -> u32 {
    (r as u32) << 16u32 | (g as u32) << 8u32 | (b as u32)
}

pub proof fn lemma_pack_channels(r: u8, g: u8, b: u8)
    ensures
        red(pack_rgb(r, g, b)) == r,
        green(pack_rgb(r, g, b)) == g,
        blue(pack_rgb(r, g, b)) == b,
        pack_rgb(r, g, b) <= 0xffffff,
{
    assert(((((r as u32) << 16u32 | (g as u32) << 8u32 | (b as u32)) >> 16u32) & 0xffu32) as u8
        == r) by (bit_vector);
    assert(((((r as u32) << 16u32 | (g as u32) << 8u32 | (b as u32)) >> 8u32) & 0xffu32) as u8
        == g) by (bit_vector);
    assert((((r as u32) << 16u32 | (g as u32) << 8u32 | (b as u32)) & 0xffu32) as u8 == b)
        by (bit_vector);
    assert(((r as u32) << 16u32 | (g as u32) << 8u32 | (b as u32)) <= 0xffffffu32)
        by (bit_vector);
}

pub proof fn lemma_channel_bounds(c: u32)
    ensures
        (c >> 16u32) & 0xffu32 == red(c) as u32,
        (c >> 8u32) & 0xffu32 == green(c) as u32,
        c & 0xffu32 == blue(c) as u32,
{
    assert((c >> 16u32) & 0xffu32 <= 0xffu32) by (bit_vector);
    assert((c >> 8u32) & 0xffu32 <= 0xffu32) by (bit_vector);
    assert(c & 0xffu32 <= 0xffu32) by (bit_vector);
}

/// A color below `0x1000000` is rebuilt from its channels.
pub proof fn lemma_unpack_pack(c: u32)
    requires
        c <= 0xffffff,
    ensures
        pack_rgb(red(c), green(c), blue(c)) == c,
{
    assert(c <= 0xffffffu32 ==> (((((c >> 16u32) & 0xffu32) as u8) as u32) << 16u32 | ((((c
        >> 8u32) & 0xffu32) as u8) as u32) << 8u32 | (((c & 0xffu32) as u8) as u32)) == c)
        by (bit_vector);
}

/// Two colors below `0x1000000` with the same channels are the same color.
pub proof fn lemma_channels_determine(c: u32, d: u32)
    requires
        c <= 0xffffff,
        d <= 0xffffff,
        red(c) == red(d),
        green(c) == green(d),
        blue(c) == blue(d),
    ensures
        c == d,
{
    assert(c <= 0xffffffu32 && d <= 0xffffffu32 && ((c >> 16u32) & 0xffu32) as u8 == ((d
        >> 16u32) & 0xffu32) as u8 && ((c >> 8u32) & 0xffu32) as u8 == ((d >> 8u32) & 0xffu32) as u8
        && (c & 0xffu32) as u8 == (d & 0xffu32) as u8 ==> c == d) by (bit_vector);
}

/// Squared Euclidean distance between two colors over their raw channel values.
pub open spec fn distance_sq(c: u32, d: u32) -> int {
    let dr = red(c) - red(d);
    let dg = green(c) - green(d);
    let db = blue(c) - blue(d);
    dr * dr + dg * dg + db * db
}

/// Index of the nearest color among the first `n` entries of `palette`:
/// the entries are scanned in order and a later one replaces the current
/// choice only when it is strictly closer.
pub open spec fn nearest_among(color: u32, palette: Seq<u32>, n: int) -> int
    decreases n,
{
    if n <= 1 {
        0
    } else {
        let best = nearest_among(color, palette, n - 1);
        if distance_sq(color, palette[n - 1]) < distance_sq(color, palette[best]) {
            n - 1
        } else {
            best
        }
    }
}

/// Index of the palette entry nearest to `color`, ties going to the lowest index.
pub open spec fn nearest_index(color: u32, palette: Seq<u32>) -> int {
    nearest_among(color, palette, palette.len() as int)
}

pub proof fn lemma_nearest_among(color: u32, palette: Seq<u32>, n: int)
    requires
        1 <= n <= palette.len(),
    ensures
        0 <= nearest_among(color, palette, n) < n,
        forall|j: int|
            0 <= j < n ==> #[trigger] distance_sq(color, palette[j]) >= distance_sq(
                color,
                palette[nearest_among(color, palette, n)],
            ),
        forall|j: int|
            0 <= j < nearest_among(color, palette, n) ==> #[trigger] distance_sq(color, palette[j])
                > distance_sq(color, palette[nearest_among(color, palette, n)]),
    decreases n,
{
    if n > 1 {
        lemma_nearest_among(color, palette, n - 1);
    }
}

/// The nearest entry is the first entry at the least distance.
pub proof fn lemma_nearest_index(color: u32, palette: Seq<u32>)
    requires
        palette.len() > 0,
    ensures
        0 <= nearest_index(color, palette) < palette.len(),
        forall|j: int|
            0 <= j < palette.len() ==> #[trigger] distance_sq(color, palette[j]) >= distance_sq(
                color,
                palette[nearest_index(color, palette)],
            ),
        forall|j: int|
            0 <= j < nearest_index(color, palette) ==> #[trigger] distance_sq(color, palette[j])
                > distance_sq(color, palette[nearest_index(color, palette)]),
{
    lemma_nearest_among(color, palette, palette.len() as int);
}

} // verus!
