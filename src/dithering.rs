use vstd::prelude::*;
use crate::color::{
    blue, green, lemma_channel_bounds, lemma_nearest_index, lemma_pack_channels, nearest_index, red,
};
use crate::palette::map_color_to_palette_index;
use crate::raster::{
    get_pixel, index_of, lemma_index_in_bounds, opaque, rgb_of, set_pixel, Raster, Rgba,
};

verus! {

/// Weights of a diffusion kernel: row `dy + 2`, column `dx + 2` holds the
/// share of the error that goes to offset `(dx, dy)`.
pub type Kernel5x5 = [[u32; 5]; 5];

/// A kernel's weights as a table of rows.
pub open spec fn table_of(kernel: Kernel5x5) -> Seq<Seq<u32>> {
    Seq::new(5, |r: int| kernel[r]@)
}

/// Sum of the first `n` entries of `s`.
pub open spec fn seq_sum(s: Seq<u32>, n: int) -> int
    decreases n,
{
    if n <= 0 {
        0
    } else {
        seq_sum(s, n - 1) + s[n - 1]
    }
}

/// Sum of all entries of the first `n` rows of `t`.
pub open spec fn table_sum(t: Seq<Seq<u32>>, n: int) -> int
    decreases n,
{
    if n <= 0 {
        0
    } else {
        table_sum(t, n - 1) + seq_sum(t[n - 1], t[n - 1].len() as int)
    }
}

/// Sum of all entries of `t`.
pub open spec fn weight_total(t: Seq<Seq<u32>>) -> int {
    table_sum(t, t.len() as int)
}

/// A five by five table whose weights lie only on the finalized pixel itself
/// or after it in raster order: to its right, or on a later row.
pub open spec fn causal(t: Seq<Seq<u32>>) -> bool {
    &&& t.len() == 5
    &&& forall|r: int| 0 <= r < 5 ==> (#[trigger] t[r]).len() == 5
    &&& forall|r: int, c: int|
        0 <= r < 5 && 0 <= c < 5 && #[trigger] t[r][c] != 0 ==> r > 2 || (r == 2 && c >= 2)
}

proof fn lemma_seq_sum_mono(s: Seq<u32>, a: int, b: int)
    requires
        0 <= a <= b <= s.len(),
    ensures
        0 <= seq_sum(s, a) <= seq_sum(s, b),
    decreases b,
{
    if a < b {
        lemma_seq_sum_mono(s, a, b - 1);
    } else if b > 0 {
        lemma_seq_sum_mono(s, 0, b - 1);
    }
}

proof fn lemma_entry_le_seq_sum(s: Seq<u32>, i: int, n: int)
    requires
        0 <= i < n <= s.len(),
    ensures
        s[i] <= seq_sum(s, n),
    decreases n,
{
    if i < n - 1 {
        lemma_entry_le_seq_sum(s, i, n - 1);
    } else {
        lemma_seq_sum_mono(s, 0, n - 1);
    }
}

proof fn lemma_table_sum_mono(t: Seq<Seq<u32>>, a: int, b: int)
    requires
        0 <= a <= b <= t.len(),
    ensures
        0 <= table_sum(t, a) <= table_sum(t, b),
    decreases b,
{
    if a < b {
        lemma_table_sum_mono(t, a, b - 1);
        lemma_seq_sum_mono(t[b - 1], 0, t[b - 1].len() as int);
    } else if b > 0 {
        lemma_table_sum_mono(t, 0, b - 1);
        lemma_seq_sum_mono(t[b - 1], 0, t[b - 1].len() as int);
    }
}

/// Each weight is at most the sum of all weights.
proof fn lemma_weight_le_total(t: Seq<Seq<u32>>, r: int, c: int)
    requires
        0 <= r < t.len(),
        0 <= c < t[r].len(),
    ensures
        t[r][c] <= weight_total(t),
{
    lemma_entry_le_seq_sum(t[r], c, t[r].len() as int);
    lemma_table_sum_mono(t, 0, r);
    lemma_table_sum_mono(t, r + 1, t.len() as int);
}

/// An error-diffusion kernel and the divisor that scales its weights.
#[derive(Debug, Copy, Clone)]
pub struct Dithering {
    normalization: u32,
    kernel: Kernel5x5,
}

impl Dithering {
    /// The weights, row `dy + 2` and column `dx + 2` for offset `(dx, dy)`.
    pub closed spec fn table(self) -> Seq<Seq<u32>> {
        table_of(self.kernel)
    }

    /// The divisor applied to every weighted error.
    pub closed spec fn normalization(self) -> u32 {
        self.normalization
    }

    /// The weight at offset `(dx, dy)`, both in `-2..=2`.
    pub open spec fn weight(self, dx: int, dy: int) -> u32 {
        self.table()[dy + 2][dx + 2]
    }

    /// A causal kernel whose divisor is the exact sum of its weights.
    pub open spec fn wf(self) -> bool {
        &&& causal(self.table())
        &&& self.normalization() == weight_total(self.table())
    }

    fn new(kernel: Kernel5x5) -> (r: Dithering)
        requires
            causal(table_of(kernel)),
            weight_total(table_of(kernel)) <= u32::MAX,
        ensures
            r.wf(),
            r.table() == table_of(kernel),
            r.kernel == kernel,
            r.normalization == weight_total(table_of(kernel)),
    {
        let ghost t = table_of(kernel);
        let mut normalization: u32 = 0;
        let mut row: usize = 0;
        while row < 5
            invariant
                row <= 5,
                t == table_of(kernel),
                causal(t),
                weight_total(t) <= u32::MAX,
                normalization == table_sum(t, row as int),
            decreases 5 - row,
        {
            let mut col: usize = 0;
            while col < 5
                invariant
                    row < 5,
                    col <= 5,
                    t == table_of(kernel),
                    causal(t),
                    weight_total(t) <= u32::MAX,
                    normalization == table_sum(t, row as int) + seq_sum(t[row as int], col as int),
                decreases 5 - col,
            {
                proof {
                    lemma_seq_sum_mono(t[row as int], col + 1, 5);
                    lemma_table_sum_mono(t, row + 1, 5);
                    assert(t[row as int][col as int] == kernel[row as int][col as int]);
                }
                normalization += kernel[row][col];
                col += 1;
            }
            row += 1;
        }
        Dithering { kernel, normalization }
    }
}

/// Floyd–Steinberg: 7 to the right; 3, 5, 1 below left, below, below right.
pub open spec fn floyd_steinberg_table() -> Seq<Seq<u32>> {
    seq![
        seq![0u32, 0, 0, 0, 0],
        seq![0u32, 0, 0, 0, 0],
        seq![0u32, 0, 0, 7, 0],
        seq![0u32, 3, 5, 1, 0],
        seq![0u32, 0, 0, 0, 0],
    ]
}

/// Jarvis–Judice–Ninke: 7, 5 to the right; 3, 5, 7, 5, 3 on the next row;
/// 1, 3, 5, 3, 1 on the row after.
pub open spec fn jarvis_judice_ninke_table() -> Seq<Seq<u32>> {
    seq![
        seq![0u32, 0, 0, 0, 0],
        seq![0u32, 0, 0, 0, 0],
        seq![0u32, 0, 0, 7, 5],
        seq![3u32, 5, 7, 5, 3],
        seq![1u32, 3, 5, 3, 1],
    ]
}

/// Atkinson: 1 to each of the two pixels to the right, the three below, and
/// the one two rows down; the divisor is the sum of these six weights.
pub open spec fn atkinson_table() -> Seq<Seq<u32>> {
    seq![
        seq![0u32, 0, 0, 0, 0],
        seq![0u32, 0, 0, 0, 0],
        seq![0u32, 0, 0, 1, 1],
        seq![0u32, 1, 1, 1, 0],
        seq![0u32, 0, 1, 0, 0],
    ]
}

/// The kernel that diffuses nothing: its one weight sits on the finalized
/// pixel itself, which is never a diffusion target.
pub open spec fn none_table() -> Seq<Seq<u32>> {
    seq![
        seq![0u32, 0, 0, 0, 0],
        seq![0u32, 0, 0, 0, 0],
        seq![0u32, 0, 1, 0, 0],
        seq![0u32, 0, 0, 0, 0],
        seq![0u32, 0, 0, 0, 0],
    ]
}

/// The Jarvis–Judice–Ninke kernel.
pub closed spec fn jarvis_judice_ninke_kernel() -> Dithering {
    Dithering {
        normalization: 48,
        kernel: [
            [0, 0, 0, 0, 0],
            [0, 0, 0, 0, 0],
            [0, 0, 0, 7, 5],
            [3, 5, 7, 5, 3],
            [1, 3, 5, 3, 1],
        ],
    }
}

/// The Floyd–Steinberg kernel.
pub closed spec fn floyd_steinberg_kernel() -> Dithering {
    Dithering {
        normalization: 16,
        kernel: [
            [0, 0, 0, 0, 0],
            [0, 0, 0, 0, 0],
            [0, 0, 0, 7, 0],
            [0, 3, 5, 1, 0],
            [0, 0, 0, 0, 0],
        ],
    }
}

/// The Atkinson kernel.
pub closed spec fn atkinson_kernel() -> Dithering {
    Dithering {
        normalization: 6,
        kernel: [
            [0, 0, 0, 0, 0],
            [0, 0, 0, 0, 0],
            [0, 0, 0, 1, 1],
            [0, 1, 1, 1, 0],
            [0, 0, 1, 0, 0],
        ],
    }
}

/// The kernel that diffuses nothing.
pub closed spec fn none_kernel() -> Dithering {
    Dithering {
        normalization: 1,
        kernel: [
            [0, 0, 0, 0, 0],
            [0, 0, 0, 0, 0],
            [0, 0, 1, 0, 0],
            [0, 0, 0, 0, 0],
            [0, 0, 0, 0, 0],
        ],
    }
}

/// Every preset kernel is causal, its weights are the table it is named for,
/// and its divisor is the exact sum of its 25 weights.
pub proof fn lemma_kernel_presets_normalized()
    ensures
        jarvis_judice_ninke_kernel().wf(),
        jarvis_judice_ninke_kernel().table() == jarvis_judice_ninke_table(),
        jarvis_judice_ninke_kernel().normalization() == 48,
        floyd_steinberg_kernel().wf(),
        floyd_steinberg_kernel().table() == floyd_steinberg_table(),
        floyd_steinberg_kernel().normalization() == 16,
        atkinson_kernel().wf(),
        atkinson_kernel().table() == atkinson_table(),
        atkinson_kernel().normalization() == 6,
        none_kernel().wf(),
        none_kernel().table() == none_table(),
        none_kernel().normalization() == 1,
{
    reveal_with_fuel(seq_sum, 6);
    reveal_with_fuel(table_sum, 6);
    assert(jarvis_judice_ninke_kernel().table() =~~= jarvis_judice_ninke_table());
    assert(seq_sum(jarvis_judice_ninke_table()[0], 5) == 0);
    assert(seq_sum(jarvis_judice_ninke_table()[1], 5) == 0);
    assert(weight_total(jarvis_judice_ninke_table()) == 48);
    assert(floyd_steinberg_kernel().table() =~~= floyd_steinberg_table());
    assert(seq_sum(floyd_steinberg_table()[0], 5) == 0);
    assert(seq_sum(floyd_steinberg_table()[1], 5) == 0);
    assert(weight_total(floyd_steinberg_table()) == 16);
    assert(atkinson_kernel().table() =~~= atkinson_table());
    assert(seq_sum(atkinson_table()[0], 5) == 0);
    assert(seq_sum(atkinson_table()[1], 5) == 0);
    assert(weight_total(atkinson_table()) == 6);
    assert(none_kernel().table() =~~= none_table());
    assert(seq_sum(none_table()[0], 5) == 0);
    assert(seq_sum(none_table()[1], 5) == 0);
    assert(weight_total(none_table()) == 1);
}

pub fn jarvis_judice_ninke() -> (r: Dithering)
    ensures
        r == jarvis_judice_ninke_kernel(),
        r.wf(),
        r.table() == jarvis_judice_ninke_table(),
        r.normalization() == 48,
{
    proof {
        lemma_kernel_presets_normalized();
    }
    Dithering::new(
        [
            [0, 0, 0, 0, 0],
            [0, 0, 0, 0, 0],
            [0, 0, 0, 7, 5],
            [3, 5, 7, 5, 3],
            [1, 3, 5, 3, 1],
        ],
    )
}

pub fn floyd_steinberg() -> (r: Dithering)
    ensures
        r == floyd_steinberg_kernel(),
        r.wf(),
        r.table() == floyd_steinberg_table(),
        r.normalization() == 16,
{
    proof {
        lemma_kernel_presets_normalized();
    }
    Dithering::new(
        [
            [0, 0, 0, 0, 0],
            [0, 0, 0, 0, 0],
            [0, 0, 0, 7, 0],
            [0, 3, 5, 1, 0],
            [0, 0, 0, 0, 0],
        ],
    )
}

pub fn atkinson() -> (r: Dithering)
    ensures
        r == atkinson_kernel(),
        r.wf(),
        r.table() == atkinson_table(),
        r.normalization() == 6,
{
    proof {
        lemma_kernel_presets_normalized();
    }
    Dithering::new(
        [
            [0, 0, 0, 0, 0],
            [0, 0, 0, 0, 0],
            [0, 0, 0, 1, 1],
            [0, 1, 1, 1, 0],
            [0, 0, 1, 0, 0],
        ],
    )
}

pub fn none() -> (r: Dithering)
    ensures
        r == none_kernel(),
        r.wf(),
        r.table() == none_table(),
        r.normalization() == 1,
{
    proof {
        lemma_kernel_presets_normalized();
    }
    Dithering::new(
        [
            [0, 0, 0, 0, 0],
            [0, 0, 0, 0, 0],
            [0, 0, 1, 0, 0],
            [0, 0, 0, 0, 0],
            [0, 0, 0, 0, 0],
        ],
    )
}

/// Quotient of `a` by `b > 0`, rounded toward zero.
pub open spec fn trunc_div(a: int, b: int) -> int {
    if a >= 0 {
        a / b
    } else {
        -((-a) / b)
    }
}

/// `v` held to `0..=255`.
pub open spec fn clamp_channel(v: int) -> u8 {
    if v < 0 {
        0
    } else if v > 255 {
        255
    } else {
        v as u8
    }
}

/// A channel after it received `err * weight / norm` of a neighbour's error.
pub open spec fn diffused_channel(old: u8, err: int, weight: int, norm: int) -> u8 {
    clamp_channel(old + trunc_div(err * weight, norm))
}

/// Whether the tap at offset `(dx, dy)` from `(x, y)` moves error: it has a
/// weight, it is not the finalized pixel itself, and it lands in the raster.
pub open spec fn tap_active(
    w: int,
    h: int,
    d: Dithering,
    x: int,
    y: int,
    dx: int,
    dy: int,
) -> bool {
    &&& d.weight(dx, dy) != 0
    &&& !(dx == 0 && dy == 0)
    &&& 0 <= x + dx < w
    &&& 0 <= y + dy < h
}

/// The pixels after the error `(er, eg, eb)` of pixel `(x, y)` went through
/// the tap at offset `(dx, dy)`.
pub open spec fn tap(
    s: Seq<Rgba>,
    w: int,
    h: int,
    d: Dithering,
    x: int,
    y: int,
    er: int,
    eg: int,
    eb: int,
    dx: int,
    dy: int,
) -> Seq<Rgba> {
    if tap_active(w, h, d, x, y, dx, dy) {
        let i = index_of(w, x + dx, y + dy);
        let p = s[i];
        let k = d.weight(dx, dy) as int;
        let n = d.normalization() as int;
        s.update(
            i,
            Rgba {
                r: diffused_channel(p.r, er, k, n),
                g: diffused_channel(p.g, eg, k, n),
                b: diffused_channel(p.b, eb, k, n),
                a: 255,
            },
        )
    } else {
        s
    }
}

/// The taps of kernel row `dy`, from column offset `dx` to `2`, in order.
pub open spec fn spread_row(
    s: Seq<Rgba>,
    w: int,
    h: int,
    d: Dithering,
    x: int,
    y: int,
    er: int,
    eg: int,
    eb: int,
    dy: int,
    dx: int,
) -> Seq<Rgba>
    decreases 3 - dx,
{
    if dx > 2 {
        s
    } else {
        spread_row(tap(s, w, h, d, x, y, er, eg, eb, dx, dy), w, h, d, x, y, er, eg, eb, dy, dx + 1)
    }
}

/// The taps of kernel rows `dy` to `2`, row by row.
pub open spec fn spread(
    s: Seq<Rgba>,
    w: int,
    h: int,
    d: Dithering,
    x: int,
    y: int,
    er: int,
    eg: int,
    eb: int,
    dy: int,
) -> Seq<Rgba>
    decreases 3 - dy,
{
    if dy > 2 {
        s
    } else {
        spread(spread_row(s, w, h, d, x, y, er, eg, eb, dy, -2), w, h, d, x, y, er, eg, eb, dy + 1)
    }
}

/// The palette color that pixel `p` is quantized to.
pub open spec fn quantized(p: Rgba, palette: Seq<u32>) -> u32 {
    palette[nearest_index(rgb_of(p), palette)]
}

/// The pixels after pixel `(x, y)` was finalized: it takes its nearest
/// palette color, fully opaque, and its error spreads through the kernel.
pub open spec fn step(
    s: Seq<Rgba>,
    w: int,
    h: int,
    d: Dithering,
    palette: Seq<u32>,
    x: int,
    y: int,
) -> Seq<Rgba> {
    let i = index_of(w, x, y);
    let p = s[i];
    let q = quantized(p, palette);
    spread(
        s.update(i, opaque(q)),
        w,
        h,
        d,
        x,
        y,
        p.r - red(q),
        p.g - green(q),
        p.b - blue(q),
        -2,
    )
}

/// Row `y` finalized from column `x` to its end.
pub open spec fn sweep_row(
    s: Seq<Rgba>,
    w: int,
    h: int,
    d: Dithering,
    palette: Seq<u32>,
    y: int,
    x: int,
) -> Seq<Rgba>
    decreases w - x,
{
    if x >= w {
        s
    } else {
        sweep_row(step(s, w, h, d, palette, x, y), w, h, d, palette, y, x + 1)
    }
}

/// Rows `y` to the last finalized, in order.
pub open spec fn sweep(
    s: Seq<Rgba>,
    w: int,
    h: int,
    d: Dithering,
    palette: Seq<u32>,
    y: int,
) -> Seq<Rgba>
    decreases h - y,
{
    if y >= h {
        s
    } else {
        sweep(sweep_row(s, w, h, d, palette, y, 0), w, h, d, palette, y + 1)
    }
}

/// The pixels of a `w` by `h` raster after one error-diffusion pass in
/// raster order.
pub open spec fn diffused(
    s: Seq<Rgba>,
    w: int,
    h: int,
    d: Dithering,
    palette: Seq<u32>,
) -> Seq<Rgba> {
    sweep(s, w, h, d, palette, 0)
}

/// Whether `p` is the fully opaque pixel of some palette entry.
pub open spec fn is_palette_pixel(p: Rgba, palette: Seq<u32>) -> bool {
    exists|k: int| 0 <= k < palette.len() && p == opaque(#[trigger] palette[k])
}

/// Whether the first `n` pixels are palette pixels.
pub open spec fn palette_pixels_upto(s: Seq<Rgba>, palette: Seq<u32>, n: int) -> bool {
    forall|j: int| 0 <= j < n ==> is_palette_pixel(#[trigger] s[j], palette)
}

/// Each pixel mapped on its own to its nearest palette color, fully opaque.
pub open spec fn quantize_each(s: Seq<Rgba>, palette: Seq<u32>) -> Seq<Rgba> {
    s.map_values(|p: Rgba| opaque(quantized(p, palette)))
}

/// A tap only writes to a pixel after the one being finalized.
proof fn lemma_tap_keeps_prefix(
    s: Seq<Rgba>,
    w: int,
    h: int,
    d: Dithering,
    x: int,
    y: int,
    er: int,
    eg: int,
    eb: int,
    dx: int,
    dy: int,
)
    requires
        d.wf(),
        0 <= x < w,
        0 <= y < h,
        s.len() == w * h,
        -2 <= dx <= 2,
        -2 <= dy <= 2,
    ensures
        tap(s, w, h, d, x, y, er, eg, eb, dx, dy).len() == s.len(),
        forall|j: int|
            0 <= j <= index_of(w, x, y) ==> #[trigger] tap(s, w, h, d, x, y, er, eg, eb, dx, dy)[j]
                == s[j],
{
    if tap_active(w, h, d, x, y, dx, dy) {
        let t = d.table();
        assert(t[dy + 2][dx + 2] != 0);
        lemma_index_in_bounds(w, h, x + dx, y + dy);
        if dy > 0 {
            assert((y + dy) * w >= (y + 1) * w) by (nonlinear_arith)
                requires
                    dy >= 1,
                    w >= 0,
            ;
            assert((y + 1) * w == y * w + w) by (nonlinear_arith);
        }
    }
}

proof fn lemma_spread_row_keeps_prefix(
    s: Seq<Rgba>,
    w: int,
    h: int,
    d: Dithering,
    x: int,
    y: int,
    er: int,
    eg: int,
    eb: int,
    dy: int,
    dx: int,
)
    requires
        d.wf(),
        0 <= x < w,
        0 <= y < h,
        s.len() == w * h,
        -2 <= dx <= 3,
        -2 <= dy <= 2,
    ensures
        spread_row(s, w, h, d, x, y, er, eg, eb, dy, dx).len() == s.len(),
        forall|j: int|
            0 <= j <= index_of(w, x, y) ==> #[trigger] spread_row(
                s,
                w,
                h,
                d,
                x,
                y,
                er,
                eg,
                eb,
                dy,
                dx,
            )[j] == s[j],
    decreases 3 - dx,
{
    if dx <= 2 {
        lemma_tap_keeps_prefix(s, w, h, d, x, y, er, eg, eb, dx, dy);
        let s1 = tap(s, w, h, d, x, y, er, eg, eb, dx, dy);
        lemma_spread_row_keeps_prefix(s1, w, h, d, x, y, er, eg, eb, dy, dx + 1);
    }
}

proof fn lemma_spread_keeps_prefix(
    s: Seq<Rgba>,
    w: int,
    h: int,
    d: Dithering,
    x: int,
    y: int,
    er: int,
    eg: int,
    eb: int,
    dy: int,
)
    requires
        d.wf(),
        0 <= x < w,
        0 <= y < h,
        s.len() == w * h,
        -2 <= dy <= 3,
    ensures
        spread(s, w, h, d, x, y, er, eg, eb, dy).len() == s.len(),
        forall|j: int|
            0 <= j <= index_of(w, x, y) ==> #[trigger] spread(s, w, h, d, x, y, er, eg, eb, dy)[j]
                == s[j],
    decreases 3 - dy,
{
    if dy <= 2 {
        lemma_spread_row_keeps_prefix(s, w, h, d, x, y, er, eg, eb, dy, -2);
        let s1 = spread_row(s, w, h, d, x, y, er, eg, eb, dy, -2);
        lemma_spread_keeps_prefix(s1, w, h, d, x, y, er, eg, eb, dy + 1);
    }
}

proof fn lemma_step_finalizes(
    s: Seq<Rgba>,
    w: int,
    h: int,
    d: Dithering,
    palette: Seq<u32>,
    x: int,
    y: int,
)
    requires
        d.wf(),
        palette.len() > 0,
        0 <= x < w,
        0 <= y < h,
        s.len() == w * h,
        palette_pixels_upto(s, palette, index_of(w, x, y)),
    ensures
        step(s, w, h, d, palette, x, y).len() == s.len(),
        palette_pixels_upto(step(s, w, h, d, palette, x, y), palette, index_of(w, x, y) + 1),
{
    let i = index_of(w, x, y);
    lemma_index_in_bounds(w, h, x, y);
    let p = s[i];
    let k = nearest_index(rgb_of(p), palette);
    lemma_nearest_index(rgb_of(p), palette);
    let q = palette[k];
    let s1 = s.update(i, opaque(q));
    lemma_spread_keeps_prefix(s1, w, h, d, x, y, p.r - red(q), p.g - green(q), p.b - blue(q), -2);
    let r = step(s, w, h, d, palette, x, y);
    assert forall|j: int| 0 <= j < i + 1 implies is_palette_pixel(#[trigger] r[j], palette) by {
        assert(r[j] == s1[j]);
        if j == i {
            assert(r[j] == opaque(palette[k]));
        }
    }
}

proof fn lemma_sweep_row_finalizes(
    s: Seq<Rgba>,
    w: int,
    h: int,
    d: Dithering,
    palette: Seq<u32>,
    y: int,
    x: int,
)
    requires
        d.wf(),
        palette.len() > 0,
        0 <= x <= w,
        0 <= y < h,
        s.len() == w * h,
        palette_pixels_upto(s, palette, index_of(w, x, y)),
    ensures
        sweep_row(s, w, h, d, palette, y, x).len() == s.len(),
        palette_pixels_upto(sweep_row(s, w, h, d, palette, y, x), palette, index_of(w, w, y)),
    decreases w - x,
{
    if x < w {
        lemma_step_finalizes(s, w, h, d, palette, x, y);
        lemma_sweep_row_finalizes(step(s, w, h, d, palette, x, y), w, h, d, palette, y, x + 1);
    }
}

proof fn lemma_sweep_finalizes(
    s: Seq<Rgba>,
    w: int,
    h: int,
    d: Dithering,
    palette: Seq<u32>,
    y: int,
)
    requires
        d.wf(),
        palette.len() > 0,
        0 <= w,
        0 <= y <= h,
        s.len() == w * h,
        palette_pixels_upto(s, palette, index_of(w, 0, y)),
    ensures
        sweep(s, w, h, d, palette, y).len() == s.len(),
        palette_pixels_upto(sweep(s, w, h, d, palette, y), palette, w * h),
    decreases h - y,
{
    if y < h {
        lemma_sweep_row_finalizes(s, w, h, d, palette, y, 0);
        assert(index_of(w, w, y) == index_of(w, 0, y + 1)) by (nonlinear_arith);
        lemma_sweep_finalizes(sweep_row(s, w, h, d, palette, y, 0), w, h, d, palette, y + 1);
    } else {
        assert(index_of(w, 0, y) == w * h) by (nonlinear_arith)
            requires
                y == h,
        ;
    }
}

/// After the pass every pixel is the fully opaque pixel of a palette entry.
pub proof fn lemma_diffused_in_palette(
    s: Seq<Rgba>,
    w: int,
    h: int,
    d: Dithering,
    palette: Seq<u32>,
)
    requires
        d.wf(),
        palette.len() > 0,
        0 <= w,
        0 <= h,
        s.len() == w * h,
    ensures
        diffused(s, w, h, d, palette).len() == s.len(),
        palette_pixels_upto(diffused(s, w, h, d, palette), palette, s.len() as int),
{
    lemma_sweep_finalizes(s, w, h, d, palette, 0);
}

proof fn lemma_spread_row_inert(
    s: Seq<Rgba>,
    w: int,
    h: int,
    d: Dithering,
    x: int,
    y: int,
    er: int,
    eg: int,
    eb: int,
    dy: int,
    dx: int,
)
    requires
        forall|ddx: int, ddy: int|
            -2 <= ddx <= 2 && -2 <= ddy <= 2 ==> !#[trigger] tap_active(w, h, d, x, y, ddx, ddy),
        -2 <= dy <= 2,
        -2 <= dx <= 3,
    ensures
        spread_row(s, w, h, d, x, y, er, eg, eb, dy, dx) == s,
    decreases 3 - dx,
{
    if dx <= 2 {
        assert(!tap_active(w, h, d, x, y, dx, dy));
        lemma_spread_row_inert(s, w, h, d, x, y, er, eg, eb, dy, dx + 1);
    }
}

proof fn lemma_spread_inert(
    s: Seq<Rgba>,
    w: int,
    h: int,
    d: Dithering,
    x: int,
    y: int,
    er: int,
    eg: int,
    eb: int,
    dy: int,
)
    requires
        forall|ddx: int, ddy: int|
            -2 <= ddx <= 2 && -2 <= ddy <= 2 ==> !#[trigger] tap_active(w, h, d, x, y, ddx, ddy),
        -2 <= dy <= 3,
    ensures
        spread(s, w, h, d, x, y, er, eg, eb, dy) == s,
    decreases 3 - dy,
{
    if dy <= 2 {
        lemma_spread_row_inert(s, w, h, d, x, y, er, eg, eb, dy, -2);
        lemma_spread_inert(s, w, h, d, x, y, er, eg, eb, dy + 1);
    }
}

/// When every weighted tap of pixel `(x, y)` other than the pixel itself
/// falls outside the raster, its quantization error is dropped: finalizing
/// it changes that pixel alone.
pub proof fn lemma_border_error_dropped(
    s: Seq<Rgba>,
    w: int,
    h: int,
    d: Dithering,
    palette: Seq<u32>,
    x: int,
    y: int,
)
    requires
        0 <= x < w,
        0 <= y < h,
        s.len() == w * h,
        forall|dx: int, dy: int|
            -2 <= dx <= 2 && -2 <= dy <= 2 && #[trigger] d.weight(dx, dy) != 0 && !(dx == 0 && dy
                == 0) ==> !(0 <= x + dx < w && 0 <= y + dy < h),
    ensures
        step(s, w, h, d, palette, x, y) == s.update(
            index_of(w, x, y),
            opaque(quantized(s[index_of(w, x, y)], palette)),
        ),
{
    let i = index_of(w, x, y);
    let p = s[i];
    let q = quantized(p, palette);
    assert forall|ddx: int, ddy: int| -2 <= ddx <= 2 && -2 <= ddy <= 2 implies
        !#[trigger] tap_active(w, h, d, x, y, ddx, ddy) by {
        if d.weight(ddx, ddy) != 0 && !(ddx == 0 && ddy == 0) {
        }
    }
    let (er, eg, eb) = (p.r - red(q), p.g - green(q), p.b - blue(q));
    lemma_spread_inert(s.update(i, opaque(q)), w, h, d, x, y, er, eg, eb, -2);
}

/// The kernel that diffuses nothing has no weight off the finalized pixel.
proof fn lemma_none_kernel_inert()
    ensures
        forall|dx: int, dy: int|
            -2 <= dx <= 2 && -2 <= dy <= 2 && #[trigger] none_kernel().weight(dx, dy) != 0 ==> dx
                == 0 && dy == 0,
{
    lemma_kernel_presets_normalized();
    let t = none_table();
    assert forall|dx: int, dy: int|
        -2 <= dx <= 2 && -2 <= dy <= 2 && #[trigger] none_kernel().weight(dx, dy) != 0 implies dx
        == 0 && dy == 0 by {
        assert(t[0] =~= seq![0u32, 0, 0, 0, 0]);
        assert(t[1] =~= seq![0u32, 0, 0, 0, 0]);
        assert(t[2] =~= seq![0u32, 0, 1, 0, 0]);
        assert(t[3] =~= seq![0u32, 0, 0, 0, 0]);
        assert(t[4] =~= seq![0u32, 0, 0, 0, 0]);
        assert(dy + 2 == 0 || dy + 2 == 1 || dy + 2 == 2 || dy + 2 == 3 || dy + 2 == 4);
    }
}

/// What a sweep has done so far when each step touches its own pixel alone:
/// the first `n` pixels of `s0` are quantized and the rest are as they were.
spec fn quantized_upto(s0: Seq<Rgba>, s: Seq<Rgba>, palette: Seq<u32>, n: int) -> bool {
    &&& s.len() == s0.len()
    &&& forall|j: int| 0 <= j < n ==> #[trigger] s[j] == opaque(quantized(s0[j], palette))
    &&& forall|j: int| n <= j < s.len() ==> #[trigger] s[j] == s0[j]
}

proof fn lemma_sweep_row_plain(
    s0: Seq<Rgba>,
    s: Seq<Rgba>,
    w: int,
    h: int,
    palette: Seq<u32>,
    y: int,
    x: int,
)
    requires
        0 <= x <= w,
        0 <= y < h,
        s0.len() == w * h,
        quantized_upto(s0, s, palette, index_of(w, x, y)),
    ensures
        quantized_upto(
            s0,
            sweep_row(s, w, h, none_kernel(), palette, y, x),
            palette,
            index_of(w, w, y),
        ),
    decreases w - x,
{
    if x < w {
        let d = none_kernel();
        lemma_none_kernel_inert();
        lemma_index_in_bounds(w, h, x, y);
        lemma_border_error_dropped(s, w, h, d, palette, x, y);
        lemma_sweep_row_plain(s0, step(s, w, h, d, palette, x, y), w, h, palette, y, x + 1);
    }
}

proof fn lemma_sweep_plain(s0: Seq<Rgba>, s: Seq<Rgba>, w: int, h: int, palette: Seq<u32>, y: int)
    requires
        0 <= w,
        0 <= y <= h,
        s0.len() == w * h,
        quantized_upto(s0, s, palette, index_of(w, 0, y)),
    ensures
        quantized_upto(s0, sweep(s, w, h, none_kernel(), palette, y), palette, w * h),
    decreases h - y,
{
    if y < h {
        lemma_sweep_row_plain(s0, s, w, h, palette, y, 0);
        assert(index_of(w, w, y) == index_of(w, 0, y + 1)) by (nonlinear_arith);
        let next = sweep_row(s, w, h, none_kernel(), palette, y, 0);
        lemma_sweep_plain(s0, next, w, h, palette, y + 1);
    } else {
        assert(index_of(w, 0, y) == w * h) by (nonlinear_arith)
            requires
                y == h,
        ;
    }
}

/// With the kernel that diffuses nothing, the pass maps every pixel to its
/// nearest palette color on its own, with no effect of one pixel on another.
pub proof fn lemma_no_op_kernel(s: Seq<Rgba>, w: int, h: int, palette: Seq<u32>)
    requires
        0 <= w,
        0 <= h,
        s.len() == w * h,
    ensures
        diffused(s, w, h, none_kernel(), palette) == quantize_each(s, palette),
{
    lemma_sweep_plain(s, s, w, h, palette, 0);
    assert(diffused(s, w, h, none_kernel(), palette) =~= quantize_each(s, palette));
}

#[inline(always)]
fn clamp(value: i64, min: i64, max: i64) -> (r: i64)
    requires
        min <= max,
    ensures
        r == (if value < min {
            min
        } else if value > max {
            max
        } else {
            value
        }),
{
    if value < min {
        min
    } else if value > max {
        max
    } else {
        value
    }
}

#[inline(always)]
fn is_inside_image(image: &Raster, x: i64, y: i64) -> (r: bool)
    ensures
        r == (0 <= x < image.width && 0 <= y < image.height),
{
    !(x < 0 || y < 0 || x > image.width as i64 - 1 || y > image.height as i64 - 1)
}

#[inline(always)]
fn kernel_by_delta(kernel: &Kernel5x5, dx: i64, dy: i64) -> (r: u32)
    requires
        -2 <= dx <= 2,
        -2 <= dy <= 2,
    ensures
        r == table_of(*kernel)[dy + 2][dx + 2],
{
    let vx = (dx + 2) as usize;
    let vy = (dy + 2) as usize;
    kernel[vy][vx]
}

/// The new value of one channel that receives `err * weight / norm`.
#[inline(always)]
fn diffuse_channel(old: u8, err: i16, weight: u32, norm: u32) -> (r: u8)
    requires
        -255 <= err <= 255,
        norm > 0,
    ensures
        r == diffused_channel(old, err as int, weight as int, norm as int),
{
    assert(-255 * 0x1_0000_0000 <= err * weight <= 255 * 0x1_0000_0000) by (nonlinear_arith)
        requires
            -255 <= err <= 255,
            0 <= weight < 0x1_0000_0000,
    ;
    let product: i64 = err as i64 * weight as i64;
    let share: i64 = product / norm as i64;
    assert(-(255 * 0x1_0000_0000) <= share <= 255 * 0x1_0000_0000) by (nonlinear_arith)
        requires
            share == trunc_div(product as int, norm as int),
            -255 * 0x1_0000_0000 <= product <= 255 * 0x1_0000_0000,
            norm > 0,
    ;
    clamp(old as i64 + share, 0, 255) as u8
}

/// Spreads the error `(er, eg, eb)` of the finalized pixel `(x, y)` to its
/// neighbours, kernel row by kernel row.
fn spread_error(image: &mut Raster, dither: &Dithering, x: u32, y: u32, er: i16, eg: i16, eb: i16)
    requires
        old(image).wf(),
        dither.wf(),
        x < old(image).width,
        y < old(image).height,
        -255 <= er <= 255,
        -255 <= eg <= 255,
        -255 <= eb <= 255,
    ensures
        final(image).width == old(image).width,
        final(image).height == old(image).height,
        final(image).wf(),
        final(image).pixels@ == spread(
            old(image).pixels@,
            old(image).width as int,
            old(image).height as int,
            *dither,
            x as int,
            y as int,
            er as int,
            eg as int,
            eb as int,
            -2,
        ),
{
    let ghost w = image.width as int;
    let ghost h = image.height as int;
    let ghost d = *dither;
    let ghost (xi, yi) = (x as int, y as int);
    let ghost (ri, gi, bi) = (er as int, eg as int, eb as int);
    let ghost start = image.pixels@;
    let mut dy: i64 = -2;
    while dy <= 2
        invariant
            -2 <= dy <= 3,
            image.wf(),
            d == *dither,
            d.wf(),
            -255 <= er <= 255,
            -255 <= eg <= 255,
            -255 <= eb <= 255,
            image.width == w,
            image.height == h,
            x < w,
            y < h,
            xi == x && yi == y && ri == er && gi == eg && bi == eb,
            spread(image.pixels@, w, h, d, xi, yi, ri, gi, bi, dy as int) == spread(
                start,
                w,
                h,
                d,
                xi,
                yi,
                ri,
                gi,
                bi,
                -2,
            ),
        decreases 3 - dy,
    {
        let ghost row_start = image.pixels@;
        let mut dx: i64 = -2;
        while dx <= 2
            invariant
                -2 <= dx <= 3,
                -2 <= dy <= 2,
                image.wf(),
                d == *dither,
                d.wf(),
                -255 <= er <= 255,
                -255 <= eg <= 255,
                -255 <= eb <= 255,
                image.width == w,
                image.height == h,
                x < w,
                y < h,
                xi == x && yi == y && ri == er && gi == eg && bi == eb,
                spread_row(image.pixels@, w, h, d, xi, yi, ri, gi, bi, dy as int, dx as int)
                    == spread_row(row_start, w, h, d, xi, yi, ri, gi, bi, dy as int, -2),
            decreases 3 - dx,
        {
            let ghost before = image.pixels@;
            let kernel_value = kernel_by_delta(&dither.kernel, dx, dy);
            let kx: i64 = x as i64 + dx;
            let ky: i64 = y as i64 + dy;
            if kernel_value != 0 && !(dx == 0 && dy == 0) && is_inside_image(image, kx, ky) {
                let original = get_pixel(image, kx as u32, ky as u32);
                let ghost p = before[index_of(w, kx as int, ky as int)];
                proof {
                    lemma_pack_channels(p.r, p.g, p.b);
                    lemma_channel_bounds(original);
                    lemma_weight_le_total(d.table(), dy + 2, dx + 2);
                }
                let norm = dither.normalization;
                let dr = diffuse_channel((original >> 16 & 0xff) as u8, er, kernel_value, norm);
                let dg = diffuse_channel((original >> 8 & 0xff) as u8, eg, kernel_value, norm);
                let db = diffuse_channel((original & 0xff) as u8, eb, kernel_value, norm);
                let diffused_pixel = (dr as u32) << 16 | (dg as u32) << 8 | (db as u32);
                set_pixel(image, kx as u32, ky as u32, diffused_pixel);
                proof {
                    lemma_pack_channels(dr, dg, db);
                }
            }
            assert(image.pixels@ == tap(before, w, h, d, xi, yi, ri, gi, bi, dx as int, dy as int));
            dx += 1;
        }
        dy += 1;
    }
}

/// Finalizes pixel `(x, y)`: writes its nearest palette color, fully opaque,
/// and spreads the quantization error to the pixels after it.
fn diffuse_pixel(image: &mut Raster, dither: &Dithering, palette: &Vec<u32>, x: u32, y: u32)
    requires
        old(image).wf(),
        dither.wf(),
        palette@.len() > 0,
        x < old(image).width,
        y < old(image).height,
    ensures
        final(image).width == old(image).width,
        final(image).height == old(image).height,
        final(image).wf(),
        final(image).pixels@ == step(
            old(image).pixels@,
            old(image).width as int,
            old(image).height as int,
            *dither,
            palette@,
            x as int,
            y as int,
        ),
{
    proof {
        lemma_index_in_bounds(image.width as int, image.height as int, x as int, y as int);
    }
    let ghost p = image.pixels@[index_of(image.width as int, x as int, y as int)];
    let original_pixel = get_pixel(image, x, y);
    let nearest_palette_index = map_color_to_palette_index(original_pixel, palette);
    let new_pixel = palette[nearest_palette_index];
    set_pixel(image, x, y, new_pixel);
    proof {
        lemma_pack_channels(p.r, p.g, p.b);
        lemma_channel_bounds(original_pixel);
        lemma_channel_bounds(new_pixel);
    }
    let er: i16 = (original_pixel >> 16 & 0xff) as i16 - (new_pixel >> 16 & 0xff) as i16;
    let eg: i16 = (original_pixel >> 8 & 0xff) as i16 - (new_pixel >> 8 & 0xff) as i16;
    let eb: i16 = (original_pixel & 0xff) as i16 - (new_pixel & 0xff) as i16;
    spread_error(image, dither, x, y, er, eg, eb);
}

/// Quantizes `image` to `palette` in one pass in raster order, diffusing each
/// pixel's quantization error through the kernel of `dither` into the pixels
/// not yet finalized.
pub fn apply_error_diffusion(image: Raster, dither: Dithering, palette: Vec<u32>) -> (r: Raster)
    requires
        image.wf(),
        dither.wf(),
        palette@.len() > 0,
    ensures
        r.wf(),
        r.width == image.width,
        r.height == image.height,
        r.pixels@ == diffused(
            image.pixels@,
            image.width as int,
            image.height as int,
            dither,
            palette@,
        ),
        forall|i: int|
            0 <= i < r.pixels@.len() ==> is_palette_pixel(#[trigger] r.pixels@[i], palette@),
{
    let mut image = image;
    let ghost w = image.width as int;
    let ghost h = image.height as int;
    let ghost start = image.pixels@;
    let mut y: u32 = 0;
    while y < image.height
        invariant
            y <= h,
            image.wf(),
            image.width == w,
            image.height == h,
            dither.wf(),
            palette@.len() > 0,
            sweep(image.pixels@, w, h, dither, palette@, y as int) == diffused(
                start,
                w,
                h,
                dither,
                palette@,
            ),
        decreases h - y,
    {
        let ghost row_start = image.pixels@;
        let mut x: u32 = 0;
        while x < image.width
            invariant
                x <= w,
                y < h,
                image.wf(),
                image.width == w,
                image.height == h,
                dither.wf(),
                palette@.len() > 0,
                sweep_row(image.pixels@, w, h, dither, palette@, y as int, x as int)
                    == sweep_row(row_start, w, h, dither, palette@, y as int, 0),
            decreases w - x,
        {
            diffuse_pixel(&mut image, &dither, &palette, x, y);
            x += 1;
        }
        y += 1;
    }
    proof {
        lemma_diffused_in_palette(start, w, h, dither, palette@);
    }
    image
}

} // verus!
