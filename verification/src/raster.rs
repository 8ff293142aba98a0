//! Row-major addressing of a raster: pixel `(x, y)` of an image `width`
//! pixels wide sits at offset `y * width + x`.

use vstd::prelude::*;
use vstd::arithmetic::div_mod::lemma_fundamental_div_mod;
use vstd::arithmetic::div_mod::lemma_fundamental_div_mod_converse;
use vstd::arithmetic::div_mod::lemma_mod_bound;

verus! {

/// The column of the pixel at offset `i`.
pub open spec fn column_of(i: int, width: int) -> int {
    i % width
}

/// The row of the pixel at offset `i`.
pub open spec fn row_of(i: int, width: int) -> int {
    i / width
}

/// The offset of pixel `(x, y)`.
pub open spec fn offset_of(x: int, y: int, width: int) -> int {
    y * width + x
}

/// An offset built from a column and a row gives both back.
pub proof fn lemma_offset_parts(x: int, y: int, width: int)
    requires
        0 <= x < width,
    ensures
        column_of(offset_of(x, y, width), width) == x,
        row_of(offset_of(x, y, width), width) == y,
{
    assert(y * width == width * y) by (nonlinear_arith);
    lemma_fundamental_div_mod_converse(y * width + x, width, y, x);
}

/// Every offset is the offset of its own column and row.
pub proof fn lemma_parts_offset(i: int, width: int)
    requires
        width > 0,
    ensures
        offset_of(column_of(i, width), row_of(i, width), width) == i,
        0 <= column_of(i, width) < width,
{
    lemma_fundamental_div_mod(i, width);
    lemma_mod_bound(i, width);
    assert((i / width) * width == width * (i / width)) by (nonlinear_arith);
}

/// A pixel inside a `width` by `height` image has an offset inside it.
pub proof fn lemma_offset_in_image(x: int, y: int, width: int, height: int)
    requires
        0 <= x < width,
        0 <= y < height,
    ensures
        0 <= offset_of(x, y, width) < width * height,
{
    assert(0 <= y * width && y * width + width <= width * height) by (nonlinear_arith)
        requires
            0 <= y < height,
            0 < width,
    ;
}

/// An offset inside a `width` by `height` image lies in one of its rows.
pub proof fn lemma_row_in_image(i: int, width: int, height: int)
    requires
        width > 0,
        0 <= i < width * height,
    ensures
        0 <= row_of(i, width) < height,
        0 <= column_of(i, width) < width,
{
    lemma_parts_offset(i, width);
    let r = i / width;
    assert(0 <= r < height) by (nonlinear_arith)
        requires
            width > 0,
            0 <= i < width * height,
            i == r * width + i % width,
            0 <= i % width < width,
    ;
}

/// An offset behind a `width` by `height` image lies in none of its rows.
pub proof fn lemma_row_outside_image(i: int, width: int, height: int)
    requires
        width > 0,
        height >= 0,
        i >= width * height,
    ensures
        row_of(i, width) >= height,
{
    lemma_parts_offset(i, width);
    let r = i / width;
    assert(r >= height) by (nonlinear_arith)
        requires
            width > 0,
            i >= width * height,
            i == r * width + i % width,
            0 <= i % width < width,
    ;
}

/// A slice is never longer than `usize::MAX`.
pub proof fn lemma_len_fits(image: &[u32])
    ensures
        image@.len() <= usize::MAX,
{
    assert(image.len() == image@.len());
}

} // verus!
