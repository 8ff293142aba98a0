//! Stretching a low-resolution frame to display size, and sharpening it.
//!
//! The stretch is a separable bilinear resampling: for every destination
//! column and every destination row a lookup table holds the two neighbouring
//! source indices and a blend weight in 256ths.

use vstd::prelude::*;
use crate::color::blue_of;
use crate::color::green_of;
use crate::color::red_of;
use crate::color::packed;
use crate::color::is_opaque_rgb;
use crate::color::lemma_channels_are_bytes;
use crate::raster::column_of;
use crate::raster::row_of;
use crate::raster::lemma_parts_offset;
use crate::raster::lemma_row_in_image;
use crate::raster::lemma_offset_in_image;
use crate::raster::lemma_len_fits;
use vstd::slice::slice_to_vec;
use crate::rows::for_each_row;
use crate::rows::row_at;
use crate::rows::RowKernel;

verus! {

/// One entry of a resampling table: the two source indices that a
/// destination coordinate falls between and the weight of the upper one, in
/// 256ths.
pub struct AxisTap {
    pub lower: int,
    pub upper: int,
    pub weight: int,
}

/// The tap of destination coordinate `i` when `src` source samples are
/// stretched over `dst` destination samples.
///
/// The source coordinate is `i * src / dst`. Its integer part is the lower
/// neighbour, the next index (not beyond the last sample) the upper one, and
/// its fractional part, rounded to the nearest 256th, the weight.
pub open spec fn scaled_tap(i: int, dst: int, src: int) -> AxisTap {
    let position = i * src;
    let lower = position / dst;
    let rest = position % dst;
    AxisTap {
        lower,
        upper: if lower + 1 > src - 1 { src - 1 } else { lower + 1 },
        weight: (512 * rest + dst) / (2 * dst),
    }
}

/// Precomputed mapping from destination pixels to source neighbours and
/// weights, one table for the columns and one for the rows.
pub struct ScaleLut {
    x0: Vec<usize>,
    x1: Vec<usize>,
    wx: Vec<u16>,
    y0: Vec<usize>,
    y1: Vec<usize>,
    wy: Vec<u16>,
}

/// A lookup table as a mathematical value: the taps of its columns and of
/// its rows.
pub struct ScaleLutView {
    pub columns: Seq<AxisTap>,
    pub rows: Seq<AxisTap>,
}

impl View for ScaleLut {
    type V = ScaleLutView;

    closed spec fn view(&self) -> ScaleLutView {
        ScaleLutView {
            columns: Seq::new(
                self.x0@.len(),
                |i: int|
                    AxisTap {
                        lower: self.x0@[i] as int,
                        upper: self.x1@[i] as int,
                        weight: self.wx@[i] as int,
                    },
            ),
            rows: Seq::new(
                self.y0@.len(),
                |i: int|
                    AxisTap {
                        lower: self.y0@[i] as int,
                        upper: self.y1@[i] as int,
                        weight: self.wy@[i] as int,
                    },
            ),
        }
    }
}

impl ScaleLut {
    /// The three vectors of each axis are equally long and no weight is
    /// above 256.
    #[verifier::type_invariant]
    spec fn well_formed(self) -> bool {
        &&& self.x0@.len() == self.x1@.len() == self.wx@.len()
        &&& self.y0@.len() == self.y1@.len() == self.wy@.len()
        &&& forall|i: int| 0 <= i < self.wx@.len() ==> (#[trigger] self.wx@[i]) <= 256
        &&& forall|i: int| 0 <= i < self.wy@.len() ==> (#[trigger] self.wy@[i]) <= 256
    }

    /// The taps of the destination columns.
    pub open spec fn columns(&self) -> Seq<AxisTap> {
        self@.columns
    }

    /// The taps of the destination rows.
    pub open spec fn rows(&self) -> Seq<AxisTap> {
        self@.rows
    }

    /// A table for a destination without pixels.
    pub fn empty() -> (lut: Self)
        ensures
            lut.columns().len() == 0,
            lut.rows().len() == 0,
    {
        ScaleLut {
            x0: Vec::new(),
            x1: Vec::new(),
            wx: Vec::new(),
            y0: Vec::new(),
            y1: Vec::new(),
            wy: Vec::new(),
        }
    }

    /// Number of destination columns.
    pub fn width(&self) -> (n: usize)
        ensures
            n == self.columns().len(),
    {
        self.x0.len()
    }

    /// Number of destination rows.
    pub fn height(&self) -> (n: usize)
        ensures
            n == self.rows().len(),
    {
        self.y0.len()
    }

    /// The tap of destination column `x`: lower index, upper index, weight.
    pub fn column_tap(&self, x: usize) -> (tap: (usize, usize, u16))
        requires
            x < self.columns().len(),
        ensures
            tap.0 == self.columns()[x as int].lower,
            tap.1 == self.columns()[x as int].upper,
            tap.2 == self.columns()[x as int].weight,
            tap.2 <= 256,
    {
        proof {
            use_type_invariant(self);
        }
        (self.x0[x], self.x1[x], self.wx[x])
    }

    /// The tap of destination row `y`: lower index, upper index, weight.
    pub fn row_tap(&self, y: usize) -> (tap: (usize, usize, u16))
        requires
            y < self.rows().len(),
        ensures
            tap.0 == self.rows()[y as int].lower,
            tap.1 == self.rows()[y as int].upper,
            tap.2 == self.rows()[y as int].weight,
            tap.2 <= 256,
    {
        proof {
            use_type_invariant(self);
        }
        (self.y0[y], self.y1[y], self.wy[y])
    }
}

/// What `scaled_tap` gives stays inside the source and its weight inside
/// `0..=256`.
pub proof fn lemma_scaled_tap_bounds(i: int, dst: int, src: int)
    requires
        0 <= i < dst,
        0 < src,
    ensures
        0 <= scaled_tap(i, dst, src).lower < src,
        scaled_tap(i, dst, src).lower <= scaled_tap(i, dst, src).upper < src,
        scaled_tap(i, dst, src).upper <= scaled_tap(i, dst, src).lower + 1,
        0 <= scaled_tap(i, dst, src).weight <= 256,
{
    let position = i * src;
    let lower = position / dst;
    let rest = position % dst;
    assert(0 <= position < dst * src) by (nonlinear_arith)
        requires
            position == i * src,
            0 <= i < dst,
            0 < src,
    ;
    vstd::arithmetic::div_mod::lemma_fundamental_div_mod(position, dst);
    vstd::arithmetic::div_mod::lemma_mod_bound(position, dst);
    assert(0 <= lower < src) by (nonlinear_arith)
        requires
            0 <= position < dst * src,
            position == dst * lower + rest,
            0 <= rest < dst,
    ;
    let doubled = 512 * rest + dst;
    let weight = doubled / (2 * dst);
    vstd::arithmetic::div_mod::lemma_fundamental_div_mod(doubled, 2 * dst);
    vstd::arithmetic::div_mod::lemma_mod_bound(doubled, 2 * dst);
    assert(0 <= weight <= 256) by (nonlinear_arith)
        requires
            0 <= rest < dst,
            doubled == 512 * rest + dst,
            doubled == (2 * dst) * weight + doubled % (2 * dst),
            0 <= doubled % (2 * dst) < 2 * dst,
    ;
}

/// Stretching an axis onto as many samples as it has maps every sample to
/// itself with weight zero.
pub proof fn lemma_identity_scale(i: int, n: int)
    requires
        0 <= i < n,
    ensures
        scaled_tap(i, n, n).lower == i,
        scaled_tap(i, n, n).weight == 0,
        scaled_tap(i, n, n).upper == (if i + 1 < n { i + 1 } else { i }),
{
    assert(i * n == n * i) by (nonlinear_arith);
    vstd::arithmetic::div_mod::lemma_fundamental_div_mod_converse(i * n, n, i, 0);
    vstd::arithmetic::div_mod::lemma_basic_div(n, 2 * n);
}

/// The taps of one axis, as three vectors: lower indices, upper indices and
/// weights.
fn scale_axis(dst: usize, src: usize) -> (taps: (Vec<usize>, Vec<usize>, Vec<u16>))
    requires
        dst > 0 ==> src > 0,
    ensures
        taps.0@.len() == dst,
        taps.1@.len() == dst,
        taps.2@.len() == dst,
        forall|i: int|
            0 <= i < dst ==> {
                &&& (#[trigger] taps.0@[i]) == scaled_tap(i, dst as int, src as int).lower
                &&& taps.1@[i] == scaled_tap(i, dst as int, src as int).upper
                &&& taps.2@[i] == scaled_tap(i, dst as int, src as int).weight
            },
        forall|i: int| 0 <= i < dst ==> (#[trigger] taps.2@[i]) <= 256,
{
    let mut lowers: Vec<usize> = Vec::new();
    let mut uppers: Vec<usize> = Vec::new();
    let mut weights: Vec<u16> = Vec::new();
    let mut i: usize = 0;
    while i < dst
        invariant
            i <= dst,
            dst > 0 ==> src > 0,
            lowers@.len() == i,
            uppers@.len() == i,
            weights@.len() == i,
            forall|k: int|
                0 <= k < i ==> (#[trigger] lowers@[k]) == scaled_tap(
                    k,
                    dst as int,
                    src as int,
                ).lower,
            forall|k: int|
                0 <= k < i ==> (#[trigger] uppers@[k]) == scaled_tap(
                    k,
                    dst as int,
                    src as int,
                ).upper,
            forall|k: int|
                0 <= k < i ==> (#[trigger] weights@[k]) == scaled_tap(
                    k,
                    dst as int,
                    src as int,
                ).weight,
            forall|k: int| 0 <= k < i ==> (#[trigger] weights@[k]) <= 256,
        decreases dst - i,
    {
        proof {
            lemma_scaled_tap_bounds(i as int, dst as int, src as int);
            assert(0 <= i * src < 0x1_0000_0000_0000_0000 * 0x1_0000_0000_0000_0000)
                by (nonlinear_arith)
                requires
                    0 <= i < 0x1_0000_0000_0000_0000,
                    0 <= src < 0x1_0000_0000_0000_0000,
            ;
        }
        let position: u128 = (i as u128) * (src as u128);
        let lower: u128 = position / (dst as u128);
        let rest: u128 = position % (dst as u128);
        let last: u128 = (src - 1) as u128;
        let upper: u128 = if lower + 1 > last { last } else { lower + 1 };
        let weight: u128 = (512 * rest + (dst as u128)) / (2 * (dst as u128));
        proof {
            let tap = scaled_tap(i as int, dst as int, src as int);
            assert(position == i * src);
            assert(lower == tap.lower);
            assert(rest == (i * src) % (dst as int));
            assert(upper == tap.upper);
            assert(weight == tap.weight);
        }
        lowers.push(lower as usize);
        uppers.push(upper as usize);
        weights.push(weight as u16);
        i += 1;
    }
    (lowers, uppers, weights)
}

/// Builds the lookup table that stretches a `src_w` by `src_h` image over a
/// `dst_w` by `dst_h` one. The two axes are independent; every entry is the
/// `scaled_tap` of its coordinate.
pub fn build_scale_lut(dst_w: usize, dst_h: usize, src_w: usize, src_h: usize) -> (lut: ScaleLut)
    requires
        dst_w > 0 ==> src_w > 0,
        dst_h > 0 ==> src_h > 0,
    ensures
        lut.columns().len() == dst_w,
        lut.rows().len() == dst_h,
        forall|x: int|
            0 <= x < dst_w ==> #[trigger] lut.columns()[x] == scaled_tap(
                x,
                dst_w as int,
                src_w as int,
            ),
        forall|y: int|
            0 <= y < dst_h ==> #[trigger] lut.rows()[y] == scaled_tap(y, dst_h as int, src_h as int),
{
    let (x0, x1, wx) = scale_axis(dst_w, src_w);
    let (y0, y1, wy) = scale_axis(dst_h, src_h);
    ScaleLut { x0, x1, wx, y0, y1, wy }
}

/// One channel blended from `a` towards `b` by `w` 256ths, rounded down.
pub open spec fn lerp_channel(a: int, b: int, w: int) -> int {
    (a * (256 - w) + b * w) / 256
}

/// Two colours blended channel by channel.
pub open spec fn lerp_color(a: u32, b: u32, w: int) -> u32 {
    packed(
        lerp_channel(red_of(a), red_of(b), w),
        lerp_channel(green_of(a), green_of(b), w),
        lerp_channel(blue_of(a), blue_of(b), w),
    ) as u32
}

/// A blended channel is a channel value again, and blending a value with
/// itself gives it back.
pub proof fn lemma_lerp_channel(a: int, b: int, w: int)
    requires
        0 <= a <= 255,
        0 <= b <= 255,
        0 <= w <= 256,
    ensures
        0 <= a * (256 - w) + b * w <= 65280,
        0 <= lerp_channel(a, b, w) <= 255,
        a == b ==> lerp_channel(a, b, w) == a,
{
    assert(0 <= a * (256 - w) + b * w <= 65280) by (nonlinear_arith)
        requires
            0 <= a <= 255,
            0 <= b <= 255,
            0 <= w <= 256,
    ;
    assert(a == b ==> a * (256 - w) + b * w == a * 256) by (nonlinear_arith);
}

/// Blends two packed colours: `w256` 256ths of `b` and the rest of `a`, each
/// channel on its own. Red and blue share one multiplication, as they lie
/// two bytes apart in the word. The unused top byte of the result is zero.
pub fn lerp_color_u32(a: u32, b: u32, w256: u32) -> (c: u32)
    requires
        w256 <= 256,
    ensures
        c == lerp_color(a, b, w256 as int),
        red_of(c) == lerp_channel(red_of(a), red_of(b), w256 as int),
        green_of(c) == lerp_channel(green_of(a), green_of(b), w256 as int),
        blue_of(c) == lerp_channel(blue_of(a), blue_of(b), w256 as int),
        is_opaque_rgb(c),
{
    let inv: u32 = 256 - w256;
    let a_rb: u32 = a & 0x00FF_00FF;
    let b_rb: u32 = b & 0x00FF_00FF;
    let a_g: u32 = a & 0x0000_FF00;
    let b_g: u32 = b & 0x0000_FF00;
    let ghost ar = red_of(a);
    let ghost ag = green_of(a);
    let ghost ab = blue_of(a);
    let ghost br = red_of(b);
    let ghost bg = green_of(b);
    let ghost bb = blue_of(b);
    let ghost w = w256 as int;
    let ghost red = ar * (256 - w) + br * w;
    let ghost green = ag * (256 - w) + bg * w;
    let ghost blue = ab * (256 - w) + bb * w;
    proof {
        assert(a_rb == ((a >> 16) & 0xFF) * 65536 + (a & 0xFF) && a_g == ((a >> 8) & 0xFF) * 256
            && ((a >> 16) & 0xFF) <= 255 && ((a >> 8) & 0xFF) <= 255 && (a & 0xFF) <= 255)
            by (bit_vector)
            requires
                a_rb == a & 0x00FF_00FF,
                a_g == a & 0x0000_FF00,
        ;
        assert(b_rb == ((b >> 16) & 0xFF) * 65536 + (b & 0xFF) && b_g == ((b >> 8) & 0xFF) * 256
            && ((b >> 16) & 0xFF) <= 255 && ((b >> 8) & 0xFF) <= 255 && (b & 0xFF) <= 255)
            by (bit_vector)
            requires
                b_rb == b & 0x00FF_00FF,
                b_g == b & 0x0000_FF00,
        ;
        lemma_lerp_channel(ar, br, w);
        lemma_lerp_channel(ag, bg, w);
        lemma_lerp_channel(ab, bb, w);
        assert(a_rb * inv + b_rb * w256 == red * 65536 + blue && a_rb * inv >= 0 && b_rb * w256
            >= 0) by (nonlinear_arith)
            requires
                a_rb == ar * 65536 + ab,
                b_rb == br * 65536 + bb,
                inv == 256 - w,
                w256 == w,
                0 <= w <= 256,
                red == ar * (256 - w) + br * w,
                blue == ab * (256 - w) + bb * w,
        ;
        assert(a_g * inv + b_g * w256 == green * 256 && a_g * inv >= 0 && b_g * w256 >= 0)
            by (nonlinear_arith)
            requires
                a_g == ag * 256,
                b_g == bg * 256,
                inv == 256 - w,
                w256 == w,
                0 <= w <= 256,
                green == ag * (256 - w) + bg * w,
        ;
    }
    let sum_rb: u32 = a_rb * inv + b_rb * w256;
    let sum_g: u32 = a_g * inv + b_g * w256;
    let rb: u32 = (sum_rb >> 8) & 0x00FF_00FF;
    let g: u32 = (sum_g >> 8) & 0x0000_FF00;
    let c: u32 = rb | g;
    proof {
        let red32 = red as u32;
        let green32 = green as u32;
        let blue32 = blue as u32;
        assert(c == (red32 / 256) * 65536 + (green32 / 256) * 256 + (blue32 / 256) && ((c >> 16)
            & 0xFF) == red32 / 256 && ((c >> 8) & 0xFF) == green32 / 256 && (c & 0xFF) == blue32
            / 256 && c <= 0x00FF_FFFF) by (bit_vector)
            requires
                red32 <= 65280,
                green32 <= 65280,
                blue32 <= 65280,
                sum_rb == red32 * 65536 + blue32,
                sum_g == green32 * 256,
                rb == (sum_rb >> 8) & 0x00FF_00FF,
                g == (sum_g >> 8) & 0x0000_FF00,
                c == rb | g,
        ;
    }
    c
}

/// The four source pixels of a column tap and a row tap lie inside a source
/// of `src_len` pixels in rows of `sw`.
pub open spec fn tap_in_source(col: AxisTap, row: AxisTap, sw: int, src_len: int) -> bool {
    &&& 0 <= sw
    &&& 0 <= col.lower
    &&& 0 <= col.upper
    &&& 0 <= row.lower
    &&& 0 <= row.upper
    &&& row.lower * sw + col.lower < src_len
    &&& row.lower * sw + col.upper < src_len
    &&& row.upper * sw + col.lower < src_len
    &&& row.upper * sw + col.upper < src_len
}

/// Every tap pair of the first `dw` columns and `dh` rows lies inside the
/// source.
pub open spec fn taps_in_source(
    cols: Seq<AxisTap>,
    rows: Seq<AxisTap>,
    dw: int,
    dh: int,
    sw: int,
    src_len: int,
) -> bool {
    forall|x: int, y: int|
        0 <= x < dw && 0 <= y < dh ==> tap_in_source(
            #[trigger] cols[x],
            #[trigger] rows[y],
            sw,
            src_len,
        )
}

/// The destination pixel of a column tap and a row tap: the four source
/// neighbours blended along the row first, then down the column.
pub open spec fn blit_pixel(src: Seq<u32>, sw: int, col: AxisTap, row: AxisTap) -> u32 {
    let c00 = src[row.lower * sw + col.lower];
    let c10 = src[row.lower * sw + col.upper];
    let c01 = src[row.upper * sw + col.lower];
    let c11 = src[row.upper * sw + col.upper];
    let top = lerp_color(c00, c10, col.weight);
    let bottom = lerp_color(c01, c11, col.weight);
    lerp_color(top, bottom, row.weight)
}

/// The number of destination rows that a blit writes: the whole rows that
/// the destination holds, as far as the table has rows.
pub open spec fn blit_rows(dst_len: int, dw: int, lut_rows: int) -> int {
    if dst_len / dw < lut_rows {
        dst_len / dw
    } else {
        lut_rows
    }
}

/// The row kernel of the bilinear stretch.
struct BlitRows<'a> {
    dw: usize,
    src: &'a [u32],
    sw: usize,
    lut: &'a ScaleLut,
}

impl<'a> RowKernel for BlitRows<'a> {
    closed spec fn accepts(&self, y: int, row: Seq<u32>) -> bool {
        &&& row.len() == self.dw
        &&& 0 < self.dw <= self.lut.columns().len()
        &&& 0 <= y < self.lut.rows().len()
        &&& forall|x: int|
            0 <= x < self.dw ==> tap_in_source(
                #[trigger] self.lut.columns()[x],
                self.lut.rows()[y],
                self.sw as int,
                self.src@.len() as int,
            )
    }

    closed spec fn produces(&self, y: int, before: Seq<u32>, after: Seq<u32>) -> bool {
        &&& after.len() == before.len()
        &&& forall|x: int|
            0 <= x < self.dw ==> #[trigger] after[x] == blit_pixel(
                self.src@,
                self.sw as int,
                self.lut.columns()[x],
                self.lut.rows()[y],
            )
    }

    fn apply(&self, y: usize, row: &mut [u32]) {
        proof {
            use_type_invariant(self.lut);
            assert(tap_in_source(
                self.lut.columns()[0],
                self.lut.rows()[y as int],
                self.sw as int,
                self.src@.len() as int,
            ));
        }
        proof {
            lemma_len_fits(self.src);
        }
        let y0 = self.lut.y0[y];
        let y1 = self.lut.y1[y];
        let wy = self.lut.wy[y] as u32;
        let row0 = y0 * self.sw;
        let row1 = y1 * self.sw;
        let mut x: usize = 0;
        while x < self.dw
            invariant
                x <= self.dw,
                self.accepts(y as int, old(row)@),
                row@.len() == old(row)@.len(),
                self.src@.len() <= usize::MAX,
                y0 == self.lut.rows()[y as int].lower,
                y1 == self.lut.rows()[y as int].upper,
                wy == self.lut.rows()[y as int].weight,
                wy <= 256,
                row0 == y0 * self.sw,
                row1 == y1 * self.sw,
                forall|k: int|
                    0 <= k < x ==> #[trigger] row@[k] == blit_pixel(
                        self.src@,
                        self.sw as int,
                        self.lut.columns()[k],
                        self.lut.rows()[y as int],
                    ),
            decreases self.dw - x,
        {
            proof {
                use_type_invariant(self.lut);
                assert(tap_in_source(
                    self.lut.columns()[x as int],
                    self.lut.rows()[y as int],
                    self.sw as int,
                    self.src@.len() as int,
                ));
            }
            let x0 = self.lut.x0[x];
            let x1 = self.lut.x1[x];
            let wx = self.lut.wx[x] as u32;
            let c00 = self.src[row0 + x0];
            let c10 = self.src[row0 + x1];
            let c01 = self.src[row1 + x0];
            let c11 = self.src[row1 + x1];
            let top = lerp_color_u32(c00, c10, wx);
            let bottom = lerp_color_u32(c01, c11, wx);
            row[x] = lerp_color_u32(top, bottom, wy);
            x += 1;
        }
    }
}

/// Every pixel of `image` is `c`.
pub open spec fn is_uniform(image: Seq<u32>, c: u32) -> bool {
    forall|k: int| 0 <= k < image.len() ==> #[trigger] image[k] == c
}

/// Blending a colour with itself gives its three channels back, whatever the
/// weight; the unused top byte is cleared.
pub proof fn lemma_lerp_same_color(c: u32, w: int)
    requires
        0 <= w <= 256,
    ensures
        lerp_color(c, c, w) == c & 0x00FF_FFFF,
        is_opaque_rgb(c) ==> lerp_color(c, c, w) == c,
{
    let r = (c >> 16) & 0xFF;
    let g = (c >> 8) & 0xFF;
    let b = c & 0xFF;
    assert(r <= 255 && g <= 255 && b <= 255 && r * 65536 + g * 256 + b == c & 0x00FF_FFFF && (c
        <= 0x00FF_FFFF ==> c & 0x00FF_FFFF == c)) by (bit_vector)
        requires
            r == (c >> 16) & 0xFF,
            g == (c >> 8) & 0xFF,
            b == c & 0xFF,
    ;
    lemma_lerp_channel(r as int, r as int, w);
    lemma_lerp_channel(g as int, g as int, w);
    lemma_lerp_channel(b as int, b as int, w);
}

/// Stretched from a source of one colour, a destination pixel has that
/// colour, whatever the taps and their weights.
pub proof fn lemma_blit_of_uniform_source(
    src: Seq<u32>,
    sw: int,
    col: AxisTap,
    row: AxisTap,
    c: u32,
)
    requires
        is_uniform(src, c),
        tap_in_source(col, row, sw, src.len() as int),
        0 <= col.weight <= 256,
        0 <= row.weight <= 256,
    ensures
        blit_pixel(src, sw, col, row) == c & 0x00FF_FFFF,
        is_opaque_rgb(c) ==> blit_pixel(src, sw, col, row) == c,
{
    assert(0 <= row.lower * sw && 0 <= row.upper * sw) by (nonlinear_arith)
        requires
            0 <= row.lower,
            0 <= row.upper,
            0 <= sw,
    ;
    let m = c & 0x00FF_FFFF;
    lemma_lerp_same_color(c, col.weight);
    lemma_lerp_same_color(m, row.weight);
    assert(m & 0x00FF_FFFF == m && (c <= 0x00FF_FFFF ==> m == c)) by (bit_vector)
        requires
            m == c & 0x00FF_FFFF,
    ;
}

/// Stretches `src`, an image in rows of `sw` pixels, into `dst`, an image in
/// rows of `dw` pixels, through the lookup table. The rows are spread over
/// the thread pool.
///
/// Written are the whole rows that `dst` holds, as far as the table has
/// rows; each pixel of them ends as `blit_pixel` says for the taps of its
/// column and row. Everything behind them is left alone. A source of one
/// colour gives a destination of that colour.
pub fn blit_bilinear_stretch(dst: &mut [u32], dw: usize, src: &[u32], sw: usize, lut: &ScaleLut)
    requires
        0 < dw <= lut.columns().len(),
        taps_in_source(
            lut.columns(),
            lut.rows(),
            dw as int,
            blit_rows(old(dst)@.len() as int, dw as int, lut.rows().len() as int),
            sw as int,
            src@.len() as int,
        ),
    ensures
        final(dst)@.len() == old(dst)@.len(),
        forall|i: int|
            0 <= i < dw * blit_rows(old(dst)@.len() as int, dw as int, lut.rows().len() as int)
                ==> #[trigger] final(dst)@[i] == blit_pixel(
                src@,
                sw as int,
                lut.columns()[column_of(i, dw as int)],
                lut.rows()[row_of(i, dw as int)],
            ),
        forall|i: int|
            dw * blit_rows(old(dst)@.len() as int, dw as int, lut.rows().len() as int) <= i < old(
                dst,
            )@.len() ==> final(dst)@[i] == old(dst)@[i],
        forall|c: u32|
            is_uniform(src@, c) ==> forall|i: int|
                0 <= i < dw * blit_rows(
                    old(dst)@.len() as int,
                    dw as int,
                    lut.rows().len() as int,
                ) ==> #[trigger] final(dst)@[i] == c & 0x00FF_FFFF,
{
    let held = dst.len() / dw;
    let rows = if held < lut.height() { held } else { lut.height() };
    proof {
        vstd::arithmetic::div_mod::lemma_fundamental_div_mod(dst@.len() as int, dw as int);
        vstd::arithmetic::div_mod::lemma_mod_bound(dst@.len() as int, dw as int);
        assert(0 <= dw * rows <= dw * held <= dst@.len()) by (nonlinear_arith)
            requires
                0 <= rows <= held,
                0 < dw,
                dst@.len() == dw * held + (dst@.len() as int) % (dw as int),
                0 <= (dst@.len() as int) % (dw as int),
        ;
    }
    let count = dw * rows;
    let kernel = BlitRows { dw, src, sw, lut };
    let (frame, _rest) = dst.split_at_mut(count);
    proof {
        assert(count == rows * dw) by (nonlinear_arith)
            requires
                count == dw * rows,
        ;
        vstd::arithmetic::div_mod::lemma_fundamental_div_mod_converse(
            count as int,
            dw as int,
            rows as int,
            0,
        );
        assert forall|y: int| 0 <= y < rows implies kernel.accepts(
            y,
            #[trigger] row_at(frame@, dw as int, y),
        ) by {
            assert(0 <= y * dw && y * dw + dw <= dw * rows) by (nonlinear_arith)
                requires
                    0 <= y < rows,
                    0 < dw,
            ;
            assert forall|x: int| 0 <= x < dw implies tap_in_source(
                #[trigger] lut.columns()[x],
                lut.rows()[y],
                sw as int,
                src@.len() as int,
            ) by {}
        }
    }
    let ghost frame_before = frame@;
    for_each_row(frame, dw, &kernel);
    proof {
        use_type_invariant(lut);
        assert forall|i: int| 0 <= i < dw * rows implies #[trigger] frame@[i] == blit_pixel(
            src@,
            sw as int,
            lut.columns()[column_of(i, dw as int)],
            lut.rows()[row_of(i, dw as int)],
        ) by {
            let x = column_of(i, dw as int);
            let y = row_of(i, dw as int);
            lemma_row_in_image(i, dw as int, rows as int);
            lemma_parts_offset(i, dw as int);
            assert(kernel.produces(
                y,
                row_at(frame_before, dw as int, y),
                row_at(frame@, dw as int, y),
            ));
            assert(0 <= y * dw && y * dw + dw <= dw * rows) by (nonlinear_arith)
                requires
                    0 <= y < rows,
                    0 < dw,
            ;
            assert(row_at(frame@, dw as int, y)[x] == frame@[i]);
        }
        assert forall|c: u32| is_uniform(src@, c) implies forall|i: int|
            0 <= i < dw * rows ==> #[trigger] frame@[i] == c & 0x00FF_FFFF by {
            assert forall|i: int| 0 <= i < dw * rows implies #[trigger] frame@[i] == c
                & 0x00FF_FFFF by {
                let x = column_of(i, dw as int);
                let y = row_of(i, dw as int);
                lemma_row_in_image(i, dw as int, rows as int);
                assert(tap_in_source(
                    lut.columns()[x],
                    lut.rows()[y],
                    sw as int,
                    src@.len() as int,
                ));
                lemma_blit_of_uniform_source(
                    src@,
                    sw as int,
                    lut.columns()[x],
                    lut.rows()[y],
                    c,
                );
            }
        }
    }
}

/// One sharpened channel: five times the centre less its four neighbours,
/// kept inside `0..=255`.
pub open spec fn sharpen_channel(c: int, n: int, s: int, e: int, w: int) -> int {
    let v = 5 * c - (n + s + e + w);
    if v < 0 {
        0
    } else if v > 255 {
        255
    } else {
        v
    }
}

/// The colour sharpened from a centre pixel and its four neighbours.
pub open spec fn sharpen_color(c: u32, n: u32, s: u32, e: u32, w: u32) -> u32 {
    packed(
        sharpen_channel(red_of(c), red_of(n), red_of(s), red_of(e), red_of(w)),
        sharpen_channel(green_of(c), green_of(n), green_of(s), green_of(e), green_of(w)),
        sharpen_channel(blue_of(c), blue_of(n), blue_of(s), blue_of(e), blue_of(w)),
    ) as u32
}

/// Pixel `(x, y)` lies in the first or last row or column of a `w` by `h`
/// image.
pub open spec fn on_border(w: int, h: int, x: int, y: int) -> bool {
    x == 0 || y == 0 || x == w - 1 || y == h - 1
}

/// Pixel `(x, y)` of the sharpened image: the pixel itself on the border, and
/// inside the colour sharpened from it and its neighbours above, below, right
/// and left, all read from the image as it was.
pub open spec fn sharpened_pixel(image: Seq<u32>, w: int, h: int, x: int, y: int) -> u32 {
    if on_border(w, h, x, y) {
        image[y * w + x]
    } else {
        sharpen_color(
            image[y * w + x],
            image[(y - 1) * w + x],
            image[(y + 1) * w + x],
            image[y * w + x + 1],
            image[y * w + x - 1],
        )
    }
}

/// A value kept inside `0..=255`.
fn sat8(v: i32) -> (r: u32)
    ensures
        r == (if v < 0 { 0 } else if v > 255 { 255 } else { v as int }),
{
    if v < 0 {
        0
    } else if v > 255 {
        255
    } else {
        v as u32
    }
}

/// Sharpens one pixel from its four neighbours, channel by channel.
fn sharpen_pixel(c: u32, n: u32, s: u32, e: u32, w: u32) -> (out: u32)
    ensures
        out == sharpen_color(c, n, s, e, w),
{
    let (cb, cg, cr) = (c & 0xFF, (c >> 8) & 0xFF, (c >> 16) & 0xFF);
    let (nb, ng, nr) = (n & 0xFF, (n >> 8) & 0xFF, (n >> 16) & 0xFF);
    let (sb, sg, sr) = (s & 0xFF, (s >> 8) & 0xFF, (s >> 16) & 0xFF);
    let (eb, eg, er) = (e & 0xFF, (e >> 8) & 0xFF, (e >> 16) & 0xFF);
    let (wb, wg, wr) = (w & 0xFF, (w >> 8) & 0xFF, (w >> 16) & 0xFF);
    proof {
        lemma_channels_are_bytes(c);
        lemma_channels_are_bytes(n);
        lemma_channels_are_bytes(s);
        lemma_channels_are_bytes(e);
        lemma_channels_are_bytes(w);
    }
    let red = 5 * (cr as i32) - (nr as i32 + sr as i32 + er as i32 + wr as i32);
    let green = 5 * (cg as i32) - (ng as i32 + sg as i32 + eg as i32 + wg as i32);
    let blue = 5 * (cb as i32) - (nb as i32 + sb as i32 + eb as i32 + wb as i32);
    let r = sat8(red);
    let g = sat8(green);
    let b = sat8(blue);
    let out = (r << 16) | (g << 8) | b;
    assert(out == r * 65536 + g * 256 + b) by (bit_vector)
        requires
            r <= 255,
            g <= 255,
            b <= 255,
            out == (r << 16) | (g << 8) | b,
    ;
    out
}

/// The row kernel of the sharpening filter. It reads a snapshot of the whole
/// image taken before any row is written.
struct SharpenRows<'a> {
    snapshot: &'a [u32],
    w: usize,
    h: usize,
}

impl<'a> RowKernel for SharpenRows<'a> {
    closed spec fn accepts(&self, y: int, row: Seq<u32>) -> bool {
        &&& row.len() == self.w
        &&& 3 <= self.w
        &&& 3 <= self.h
        &&& 0 <= y < self.h
        &&& self.w * self.h <= self.snapshot@.len()
    }

    closed spec fn produces(&self, y: int, before: Seq<u32>, after: Seq<u32>) -> bool {
        &&& after.len() == before.len()
        &&& forall|x: int|
            0 <= x < self.w ==> #[trigger] after[x] == sharpened_pixel(
                self.snapshot@,
                self.w as int,
                self.h as int,
                x,
                y,
            )
    }

    fn apply(&self, y: usize, row: &mut [u32]) {
        let w = self.w;
        let h = self.h;
        proof {
            lemma_len_fits(self.snapshot);
            assert(0 <= y * w && y * w + w <= w * h) by (nonlinear_arith)
                requires
                    0 <= y < h,
                    0 < w,
            ;
        }
        let base = y * w;
        if y == 0 || y == h - 1 {
            let mut x: usize = 0;
            while x < w
                invariant
                    x <= w,
                    w == self.w,
                    h == self.h,
                    y == 0 || y == h - 1,
                    self.snapshot@.len() <= usize::MAX,
                    base == y * w,
                    base + w <= w * h <= self.snapshot@.len(),
                    row@.len() == w,
                    forall|k: int|
                        0 <= k < x ==> #[trigger] row@[k] == sharpened_pixel(
                            self.snapshot@,
                            w as int,
                            h as int,
                            k,
                            y as int,
                        ),
                decreases w - x,
            {
                row[x] = self.snapshot[base + x];
                x += 1;
            }
            return ;
        }
        proof {
            assert((y - 1) * w == y * w - w && (y + 1) * w == y * w + w && (y + 1) * w + w <= w
                * h) by (nonlinear_arith)
                requires
                    1 <= y,
                    y + 1 < h,
                    0 < w,
            ;
        }
        row[0] = self.snapshot[base];
        row[w - 1] = self.snapshot[base + (w - 1)];
        let mut x: usize = 1;
        while x < w - 1
            invariant
                1 <= x <= w - 1,
                3 <= w,
                w == self.w,
                h == self.h,
                1 <= y,
                y + 1 < h,
                self.snapshot@.len() <= usize::MAX,
                base == y * w,
                (y - 1) * w == base - w,
                (y + 1) * w == base + w,
                base + w + w <= w * h <= self.snapshot@.len(),
                row@.len() == w,
                row@[0] == self.snapshot@[base as int],
                row@[w - 1] == self.snapshot@[base + w - 1],
                forall|k: int|
                    1 <= k < x ==> #[trigger] row@[k] == sharpened_pixel(
                        self.snapshot@,
                        w as int,
                        h as int,
                        k,
                        y as int,
                    ),
            decreases w - x,
        {
            let c = self.snapshot[base + x];
            let n = self.snapshot[base - w + x];
            let s = self.snapshot[base + w + x];
            let e = self.snapshot[base + (x + 1)];
            let wv = self.snapshot[base + (x - 1)];
            row[x] = sharpen_pixel(c, n, s, e, wv);
            x += 1;
        }
    }
}

/// Sharpening keeps the first and last row and column of an image.
pub proof fn lemma_sharpen_keeps_border(image: Seq<u32>, w: int, h: int, x: int, y: int)
    requires
        on_border(w, h, x, y),
    ensures
        sharpened_pixel(image, w, h, x, y) == image[y * w + x],
{
}

/// Sharpening an image of one colour gives that colour at every pixel.
pub proof fn lemma_sharpen_of_uniform_image(
    image: Seq<u32>,
    w: int,
    h: int,
    x: int,
    y: int,
    c: u32,
)
    requires
        0 <= x < w,
        0 <= y < h,
        w * h <= image.len(),
        is_uniform(image, c),
        is_opaque_rgb(c),
    ensures
        sharpened_pixel(image, w, h, x, y) == c,
{
    lemma_offset_in_image(x, y, w, h);
    if !on_border(w, h, x, y) {
        lemma_offset_in_image(x, y - 1, w, h);
        lemma_offset_in_image(x, y + 1, w, h);
        lemma_offset_in_image(x - 1, y, w, h);
        lemma_offset_in_image(x + 1, y, w, h);
        lemma_channels_are_bytes(c);
        let r = (c >> 16) & 0xFF;
        let g = (c >> 8) & 0xFF;
        let b = c & 0xFF;
        assert(r * 65536 + g * 256 + b == c) by (bit_vector)
            requires
                c <= 0x00FF_FFFF,
                r == (c >> 16) & 0xFF,
                g == (c >> 8) & 0xFF,
                b == c & 0xFF,
        ;
    }
}

/// Sharpens a `w` by `h` image in place with a cross-shaped 3x3 filter, the
/// rows spread over the thread pool.
///
/// An image narrower or lower than three pixels is left as it is. Otherwise
/// every pixel ends as `sharpened_pixel` says of the image as it was before
/// the call: border pixels keep their colour, and an image of one colour
/// stays as it is. Whatever the buffer holds behind the image is left alone.
pub fn sharpen3x3_cross_inplace(dst: &mut [u32], w: usize, h: usize)
    requires
        w >= 3 && h >= 3 ==> w * h <= old(dst)@.len(),
    ensures
        final(dst)@.len() == old(dst)@.len(),
        w < 3 || h < 3 ==> final(dst)@ == old(dst)@,
        w >= 3 && h >= 3 ==> forall|i: int|
            0 <= i < w * h ==> #[trigger] final(dst)@[i] == sharpened_pixel(
                old(dst)@,
                w as int,
                h as int,
                column_of(i, w as int),
                row_of(i, w as int),
            ),
        w >= 3 && h >= 3 ==> forall|i: int|
            w * h <= i < old(dst)@.len() ==> final(dst)@[i] == old(dst)@[i],
        w >= 3 && h >= 3 ==> forall|i: int|
            0 <= i < w * h && on_border(
                w as int,
                h as int,
                column_of(i, w as int),
                row_of(i, w as int),
            ) ==> #[trigger] final(dst)@[i] == old(dst)@[i],
        forall|c: u32| is_uniform(old(dst)@, c) && is_opaque_rgb(c) ==> final(dst)@ == old(dst)@,
{
    if w < 3 || h < 3 {
        return ;
    }
    proof {
        lemma_len_fits(&*dst);
    }
    let snapshot = slice_to_vec(dst);
    let count = w * h;
    let ghost before = dst@;
    let kernel = SharpenRows { snapshot: snapshot.as_slice(), w, h };
    let (frame, rest) = dst.split_at_mut(count);
    proof {
        assert(count == h * w) by (nonlinear_arith)
            requires
                count == w * h,
        ;
        vstd::arithmetic::div_mod::lemma_fundamental_div_mod_converse(
            count as int,
            w as int,
            h as int,
            0,
        );
        assert forall|y: int| 0 <= y < h implies kernel.accepts(
            y,
            #[trigger] row_at(frame@, w as int, y),
        ) by {
            assert(0 <= y * w && y * w + w <= w * h) by (nonlinear_arith)
                requires
                    0 <= y < h,
                    0 < w,
            ;
        }
    }
    let ghost frame_before = frame@;
    for_each_row(frame, w, &kernel);
    proof {
        assert forall|i: int| 0 <= i < w * h implies #[trigger] frame@[i] == sharpened_pixel(
            before,
            w as int,
            h as int,
            column_of(i, w as int),
            row_of(i, w as int),
        ) by {
            let x = column_of(i, w as int);
            let y = row_of(i, w as int);
            lemma_row_in_image(i, w as int, h as int);
            lemma_parts_offset(i, w as int);
            assert(kernel.produces(
                y,
                row_at(frame_before, w as int, y),
                row_at(frame@, w as int, y),
            ));
            assert(0 <= y * w && y * w + w <= w * h) by (nonlinear_arith)
                requires
                    0 <= y < h,
                    0 < w,
            ;
            assert(row_at(frame@, w as int, y)[x] == frame@[i]);
        }
        assert forall|c: u32| is_uniform(before, c) && is_opaque_rgb(c) implies frame@ + rest@
            == before by {
            assert forall|i: int| 0 <= i < w * h implies #[trigger] frame@[i] == before[i] by {
                lemma_row_in_image(i, w as int, h as int);
                lemma_sharpen_of_uniform_image(
                    before,
                    w as int,
                    h as int,
                    column_of(i, w as int),
                    row_of(i, w as int),
                    c,
                );
            }
            assert(frame@ + rest@ =~= before);
        }
        assert forall|i: int|
            0 <= i < w * h && on_border(
                w as int,
                h as int,
                column_of(i, w as int),
                row_of(i, w as int),
            ) implies #[trigger] frame@[i] == before[i] by {
            lemma_parts_offset(i, w as int);
        }
    }
}

} // verus!
