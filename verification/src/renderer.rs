//! Painter's-algorithm rasteriser for projected walls.
//!
//! A wall reaches the rasteriser already projected: the screen column it
//! starts at and, for each column it spans, the floored screen rows of its
//! top and bottom edge. The rasteriser orders the walls by depth, paints them
//! back to front and keeps, per column, how far the open ceiling and floor
//! still reach.

use vstd::prelude::*;
use crate::color::packed;
use crate::color::red_of;
use crate::color::green_of;
use crate::color::blue_of;
use crate::color::is_opaque_rgb;
use crate::raster::column_of;
use crate::raster::row_of;
use crate::raster::offset_of;
use crate::raster::lemma_offset_parts;
use crate::raster::lemma_parts_offset;
use crate::raster::lemma_offset_in_image;
use crate::raster::lemma_len_fits;
use crate::raster::lemma_row_in_image;
use crate::raster::lemma_row_outside_image;
use crate::depth_order::paint_order;
use crate::depth_order::is_paint_order;
use crate::visibility::frame_pixel;
use crate::visibility::last_painted;
use crate::visibility::ceiling_after;
use crate::visibility::floor_after;
use crate::visibility::front_wall;
use crate::visibility::lemma_painting_shows_front_wall;
use crate::visibility::lemma_painting_leaves_open_clips;
use crate::visibility::lemma_walls_lie_between_clips;
use crate::visibility::lemma_front_wall_is_in_front;

verus! {

/// Colour of the upper half of a cleared frame.
pub const SKY_COLOR: u32 = 0x001E_1E46;

/// Colour of the lower half of a cleared frame.
pub const GROUND_COLOR: u32 = 0x0028_2828;

/// Colour of the ceiling above the highest wall edge of a column.
pub const CEILING_COLOR: u32 = 0x00C8_C8C8;

/// Colour of the floor below the lowest wall edge of a column.
pub const FLOOR_COLOR: u32 = 0x001E_1E46;

/// The colour of the wall with index `i`: a palette of four, taken in turn.
pub open spec fn wall_color(i: int) -> u32 {
    let slot = i % 4;
    if slot == 0 {
        0x00C8_C8C8
    } else if slot == 1 {
        0x00B4_B4FA
    } else if slot == 2 {
        0x00FA_B4B4
    } else {
        0x00B4_FAB4
    }
}

/// Packs three 8-bit channels into one colour word.
pub fn pack_rgb(r: u8, g: u8, b: u8) -> (c: u32)
    ensures
        c == packed(r as int, g as int, b as int),
        red_of(c) == r,
        green_of(c) == g,
        blue_of(c) == b,
        is_opaque_rgb(c),
{
    let c: u32 = (b as u32) | ((g as u32) << 8) | ((r as u32) << 16);
    assert(c == r * 65536 + g * 256 + b && (c & 0xFF) == b && ((c >> 8) & 0xFF) == g && ((c >> 16)
        & 0xFF) == r && c <= 0x00FF_FFFF) by (bit_vector)
        requires
            c == (b as u32) | ((g as u32) << 8) | ((r as u32) << 16),
    ;
    c
}

/// The palette colour of the wall with index `i`.
pub fn palette_color(i: usize) -> (c: u32)
    ensures
        c == wall_color(i as int),
{
    let slot = i % 4;
    if slot == 0 {
        pack_rgb(200, 200, 200)
    } else if slot == 1 {
        pack_rgb(180, 180, 250)
    } else if slot == 2 {
        pack_rgb(250, 180, 180)
    } else {
        pack_rgb(180, 250, 180)
    }
}

/// The floored screen rows of a wall's top and bottom edge in one column,
/// before they are ordered and clamped to the frame.
#[derive(Clone, Copy, Debug)]
pub struct ColumnExtent {
    pub top: i32,
    pub bottom: i32,
}

/// One wall as the rasteriser reads it.
#[derive(Clone, Debug)]
pub struct ProjectedWall {
    /// Ordering key: larger means farther from the viewer.
    pub depth: i32,
    /// The screen column of `extents[0]`.
    pub left: usize,
    /// One extent per spanned column, left to right. Empty for a culled wall.
    pub extents: Vec<ColumnExtent>,
}

/// The first row that an extent paints: its upper edge, not above row 0.
pub open spec fn span_first(e: ColumnExtent) -> int {
    let upper = if e.top > e.bottom { e.bottom } else { e.top };
    if upper < 0 { 0 } else { upper as int }
}

/// The last row that an extent paints: its lower edge, not below the last row.
pub open spec fn span_last(e: ColumnExtent, height: int) -> int {
    let lower = if e.top > e.bottom { e.top } else { e.bottom };
    if lower > height - 1 { height - 1 } else { lower as int }
}

impl ProjectedWall {
    /// The wall spans screen column `x`.
    pub open spec fn touches(&self, x: int) -> bool {
        self.left <= x < self.left + self.extents@.len()
    }

    /// The wall's extent in screen column `x`.
    pub open spec fn extent_at(&self, x: int) -> ColumnExtent {
        self.extents@[x - self.left]
    }

    /// The wall paints pixel `(x, y)` of a frame `height` rows high.
    pub open spec fn covers(&self, height: int, x: int, y: int) -> bool {
        &&& self.touches(x)
        &&& span_first(self.extent_at(x)) <= y <= span_last(self.extent_at(x), height)
    }

    /// All the wall's columns lie inside a frame `width` columns wide.
    pub open spec fn fits(&self, width: int) -> bool {
        self.left + self.extents@.len() <= width
    }
}

/// Paints rows `first..=last` of column `x` with `color`.
fn fill_column(
    buf: &mut [u32],
    width: usize,
    height: usize,
    x: usize,
    first: usize,
    last: usize,
    color: u32,
)
    requires
        x < width,
        first <= last < height,
        width * height <= old(buf)@.len(),
    ensures
        final(buf)@.len() == old(buf)@.len(),
        forall|i: int|
            0 <= i < old(buf)@.len() ==> #[trigger] final(buf)@[i] == (if column_of(i, width as int)
                == x && first <= row_of(i, width as int) <= last {
                color
            } else {
                old(buf)@[i]
            }),
{
    proof {
        lemma_len_fits(&*buf);
        lemma_offset_in_image(x as int, first as int, width as int, height as int);
        assert(0 <= first * width <= buf@.len()) by (nonlinear_arith)
            requires
                0 <= x,
                first * width + x < width * height <= buf@.len(),
        ;
    }
    let mut y: usize = first;
    let mut idx: usize = first * width + x;
    while y < last
        invariant
            x < width,
            first <= y <= last < height,
            width * height <= buf@.len(),
            buf@.len() == old(buf)@.len(),
            idx == offset_of(x as int, y as int, width as int),
            forall|i: int|
                0 <= i < buf@.len() ==> #[trigger] buf@[i] == (if column_of(i, width as int) == x
                    && first <= row_of(i, width as int) < y {
                    color
                } else {
                    old(buf)@[i]
                }),
        decreases last - y,
    {
        proof {
            lemma_offset_in_image(x as int, y as int, width as int, height as int);
            lemma_offset_in_image(x as int, y + 1, width as int, height as int);
            lemma_offset_parts(x as int, y as int, width as int);
            assert((y + 1) * width == y * width + width) by (nonlinear_arith);
            assert forall|i: int| 0 <= i < buf@.len() && i != idx implies !(column_of(
                i,
                width as int,
            ) == x && row_of(i, width as int) == y) by {
                lemma_parts_offset(i, width as int);
            }
        }
        buf[idx] = color;
        y += 1;
        idx += width;
    }
    proof {
        lemma_offset_in_image(x as int, y as int, width as int, height as int);
        lemma_offset_parts(x as int, y as int, width as int);
        assert forall|i: int| 0 <= i < buf@.len() && i != idx implies !(column_of(i, width as int)
            == x && row_of(i, width as int) == y) by {
            lemma_parts_offset(i, width as int);
        }
    }
    buf[idx] = color;
}

/// Paints one projected wall and narrows the open ceiling and floor of the
/// columns it spans.
///
/// In each spanned column the extent is ordered, clamped to the frame and
/// filled with `color`; `ceil_clip` drops to the first painted row where that
/// is higher up than before, `floor_clip` rises to the last painted row where
/// that is lower down. A wall without extents writes nothing.
pub fn draw_solid_wall(
    buf: &mut [u32],
    width: usize,
    height: usize,
    wall: &ProjectedWall,
    color: u32,
    ceil_clip: &mut [i32],
    floor_clip: &mut [i32],
)
    requires
        width * height <= old(buf)@.len(),
        wall.fits(width as int),
        old(ceil_clip)@.len() == width,
        old(floor_clip)@.len() == width,
    ensures
        final(buf)@.len() == old(buf)@.len(),
        forall|i: int|
            0 <= i < old(buf)@.len() ==> #[trigger] final(buf)@[i] == (if wall.covers(
                height as int,
                column_of(i, width as int),
                row_of(i, width as int),
            ) {
                color
            } else {
                old(buf)@[i]
            }),
        final(ceil_clip)@.len() == width,
        forall|x: int|
            0 <= x < width ==> #[trigger] final(ceil_clip)@[x] == (if wall.touches(x) && span_first(
                wall.extent_at(x),
            ) < old(ceil_clip)@[x] {
                span_first(wall.extent_at(x))
            } else {
                old(ceil_clip)@[x] as int
            }),
        final(floor_clip)@.len() == width,
        forall|x: int|
            0 <= x < width ==> #[trigger] final(floor_clip)@[x] == (if wall.touches(x) && span_last(
                wall.extent_at(x),
                height as int,
            ) > old(floor_clip)@[x] {
                span_last(wall.extent_at(x), height as int)
            } else {
                old(floor_clip)@[x] as int
            }),
{
    let count = wall.extents.len();
    let tall = height > i32::MAX as usize;
    let last_row: i32 = if tall { i32::MAX } else { height as i32 - 1 };
    let mut k: usize = 0;
    while k < count
        invariant
            k <= count,
            count == wall.extents@.len(),
            tall <==> height > i32::MAX,
            !tall ==> last_row == height - 1,
            width * height <= buf@.len(),
            wall.fits(width as int),
            buf@.len() == old(buf)@.len(),
            ceil_clip@.len() == width,
            floor_clip@.len() == width,
            forall|i: int|
                0 <= i < buf@.len() ==> #[trigger] buf@[i] == (if wall.covers(
                    height as int,
                    column_of(i, width as int),
                    row_of(i, width as int),
                ) && column_of(i, width as int) < wall.left + k {
                    color
                } else {
                    old(buf)@[i]
                }),
            forall|x: int|
                0 <= x < width ==> #[trigger] ceil_clip@[x] == (if wall.touches(x) && x < wall.left
                    + k && span_first(wall.extent_at(x)) < old(ceil_clip)@[x] {
                    span_first(wall.extent_at(x))
                } else {
                    old(ceil_clip)@[x] as int
                }),
            forall|x: int|
                0 <= x < width ==> #[trigger] floor_clip@[x] == (if wall.touches(x) && x
                    < wall.left + k && span_last(wall.extent_at(x), height as int) > old(
                    floor_clip,
                )@[x] {
                    span_last(wall.extent_at(x), height as int)
                } else {
                    old(floor_clip)@[x] as int
                }),
        decreases count - k,
    {
        let x: usize = wall.left + k;
        let extent = wall.extents[k];
        let mut y0: i32 = extent.top;
        let mut y1: i32 = extent.bottom;
        if y0 > y1 {
            y0 = extent.bottom;
            y1 = extent.top;
        }
        if y0 < 0 {
            y0 = 0;
        }
        if !tall && y1 > last_row {
            y1 = last_row;
        }
        assert(y0 == span_first(wall.extent_at(x as int)));
        assert(y1 == span_last(wall.extent_at(x as int), height as int));
        if y0 <= y1 {
            fill_column(buf, width, height, x, y0 as usize, y1 as usize, color);
        }
        if y0 < ceil_clip[x] {
            ceil_clip[x] = y0;
        }
        if y1 > floor_clip[x] {
            floor_clip[x] = y1;
        }
        k += 1;
    }
}

/// The screen columns that a wall spans, after clamping to the frame.
#[derive(Clone, Copy, Debug, PartialEq, Eq)]
pub struct ColumnRange {
    /// First spanned column.
    pub left: usize,
    /// Last spanned column; always right of `left`.
    pub right: usize,
    /// The wall's endpoints were given right to left and have to be exchanged
    /// so that the first endpoint is the one at `left`.
    pub swapped: bool,
}

/// The column range of a wall whose endpoints project to the floored screen
/// columns `a` and `b`, as a mathematical value.
pub open spec fn spec_column_range(a: i32, b: i32, width: int) -> Option<ColumnRange> {
    let lo = if a > b { b } else { a };
    let hi = if a > b { a } else { b };
    let left = if lo < 0 { 0 } else { lo as int };
    let right = if hi > width - 1 { width - 1 } else { hi as int };
    if left < right {
        Some(ColumnRange { left: left as usize, right: right as usize, swapped: a > b })
    } else {
        None
    }
}

/// Orders the two floored endpoint columns of a wall, clamps them to
/// `0..=width - 1` and rejects the wall when fewer than two columns are left.
pub fn column_range(a: i32, b: i32, width: usize) -> (range: Option<ColumnRange>)
    ensures
        range == spec_column_range(a, b, width as int),
        range matches Some(r) ==> r.left < r.right < width,
{
    let swapped = a > b;
    let mut x0: i32 = if swapped { b } else { a };
    let mut x1: i32 = if swapped { a } else { b };
    if x0 < 0 {
        x0 = 0;
    }
    if width <= i32::MAX as usize {
        let last: i32 = width as i32 - 1;
        if x1 > last {
            x1 = last;
        }
    }
    if x0 >= x1 {
        None
    } else {
        Some(ColumnRange { left: x0 as usize, right: x1 as usize, swapped })
    }
}

/// The colour of row `y` in a cleared frame `height` rows high.
pub open spec fn clear_color(height: int, y: int) -> u32 {
    if y < height / 2 {
        SKY_COLOR
    } else {
        GROUND_COLOR
    }
}

/// Clears the frame: sky above the middle row, ground from the middle row
/// down. Whatever the buffer holds behind the frame is left alone.
pub fn clear_frame(buf: &mut [u32], width: usize, height: usize)
    requires
        width * height <= old(buf)@.len(),
    ensures
        final(buf)@.len() == old(buf)@.len(),
        forall|i: int|
            0 <= i < width * height ==> #[trigger] final(buf)@[i] == clear_color(
                height as int,
                row_of(i, width as int),
            ),
        forall|i: int| width * height <= i < old(buf)@.len() ==> final(buf)@[i] == old(buf)@[i],
{
    let sky = pack_rgb(30, 30, 70);
    let ground = pack_rgb(40, 40, 40);
    let mid = height / 2;
    proof {
        lemma_len_fits(&*buf);
    }
    let mut y: usize = 0;
    let mut row: usize = 0;
    while y < height
        invariant
            y <= height,
            buf@.len() <= usize::MAX,
            mid == height / 2,
            sky == SKY_COLOR,
            ground == GROUND_COLOR,
            row == y * width,
            width * height <= buf@.len(),
            buf@.len() == old(buf)@.len(),
            forall|i: int|
                0 <= i < y * width ==> #[trigger] buf@[i] == clear_color(
                    height as int,
                    row_of(i, width as int),
                ),
            forall|i: int| y * width <= i < buf@.len() ==> buf@[i] == old(buf)@[i],
        decreases height - y,
    {
        let color = if y < mid { sky } else { ground };
        proof {
            assert(y * width + width == (y + 1) * width && (y + 1) * width <= width * height)
                by (nonlinear_arith)
                requires
                    y < height,
            ;
        }
        let mut x: usize = 0;
        while x < width
            invariant
                x <= width,
                y < height,
                buf@.len() <= usize::MAX,
                row == y * width,
                row + width <= width * height <= buf@.len(),
                buf@.len() == old(buf)@.len(),
                color == clear_color(height as int, y as int),
                forall|i: int|
                    0 <= i < row + x ==> #[trigger] buf@[i] == clear_color(
                        height as int,
                        row_of(i, width as int),
                    ),
                forall|i: int| row + x <= i < buf@.len() ==> buf@[i] == old(buf)@[i],
            decreases width - x,
        {
            proof {
                lemma_offset_parts(x as int, y as int, width as int);
            }
            buf[row + x] = color;
            x += 1;
        }
        y += 1;
        row += width;
    }
    proof {
        assert(height * width == width * height) by (nonlinear_arith);
    }
}

/// The colour that the backfill leaves at row `y` of a column whose open
/// ceiling ends above row `ceiling` and whose open floor starts below row
/// `floor`, where the pixel held `before`.
pub open spec fn backfill_color(height: int, ceiling: int, floor: int, y: int, before: u32) -> u32 {
    if floor >= 0 && y > floor {
        FLOOR_COLOR
    } else if ceiling < height && y < ceiling {
        CEILING_COLOR
    } else {
        before
    }
}

/// Fills what is still open above and below the painted walls: in each column
/// that a wall has narrowed, ceiling colour above row `ceil_clip[x]` and floor
/// colour below row `floor_clip[x]`. A column at its initial values
/// (`height` and `-1`) is left as it is.
pub fn backfill_open_columns(
    buf: &mut [u32],
    width: usize,
    height: usize,
    ceil_clip: &[i32],
    floor_clip: &[i32],
)
    requires
        width * height <= old(buf)@.len(),
        ceil_clip@.len() == width,
        floor_clip@.len() == width,
    ensures
        final(buf)@.len() == old(buf)@.len(),
        forall|i: int|
            0 <= i < width * height ==> #[trigger] final(buf)@[i] == backfill_color(
                height as int,
                ceil_clip@[column_of(i, width as int)] as int,
                floor_clip@[column_of(i, width as int)] as int,
                row_of(i, width as int),
                old(buf)@[i],
            ),
        forall|i: int| width * height <= i < old(buf)@.len() ==> final(buf)@[i] == old(buf)@[i],
{
    let ceil_color = pack_rgb(200, 200, 200);
    let floor_color = pack_rgb(30, 30, 70);
    let mut x: usize = 0;
    while x < width
        invariant
            x <= width,
            ceil_color == CEILING_COLOR,
            floor_color == FLOOR_COLOR,
            width * height <= buf@.len(),
            ceil_clip@.len() == width,
            floor_clip@.len() == width,
            buf@.len() == old(buf)@.len(),
            forall|i: int|
                0 <= i < buf@.len() ==> #[trigger] buf@[i] == (if i < width * height && column_of(
                    i,
                    width as int,
                ) < x {
                    backfill_color(
                        height as int,
                        ceil_clip@[column_of(i, width as int)] as int,
                        floor_clip@[column_of(i, width as int)] as int,
                        row_of(i, width as int),
                        old(buf)@[i],
                    )
                } else {
                    old(buf)@[i]
                }),
        decreases width - x,
    {
        let cc: i32 = ceil_clip[x];
        let fc: i32 = floor_clip[x];
        let ghost before = buf@;
        if cc > 0 && (cc as usize) < height {
            fill_column(buf, width, height, x, 0, (cc - 1) as usize, ceil_color);
        }
        let ghost between = buf@;
        if fc >= 0 && (fc as usize) + 1 < height {
            fill_column(buf, width, height, x, (fc as usize) + 1, height - 1, floor_color);
        }
        proof {
            assert forall|i: int| 0 <= i < buf@.len() implies #[trigger] buf@[i] == (if i < width
                * height && column_of(i, width as int) < x + 1 {
                backfill_color(
                    height as int,
                    ceil_clip@[column_of(i, width as int)] as int,
                    floor_clip@[column_of(i, width as int)] as int,
                    row_of(i, width as int),
                    old(buf)@[i],
                )
            } else {
                old(buf)@[i]
            }) by {
                let _ = before[i];
                let _ = between[i];
                if column_of(i, width as int) == x {
                    lemma_parts_offset(i, width as int);
                    if i < width * height {
                        lemma_row_in_image(i, width as int, height as int);
                    } else {
                        lemma_row_outside_image(i, width as int, height as int);
                    }
                }
            }
        }
        x += 1;
    }
    proof {
        assert forall|i: int| 0 <= i < width * height implies column_of(i, width as int)
            < width by {
            lemma_row_in_image(i, width as int, height as int);
        }
    }
}

/// The colour at a pixel while the walls are being painted: that of the wall
/// painted there last, or the cleared background.
pub open spec fn painted_color(last: Option<int>, height: int, y: int) -> u32 {
    match last {
        Some(i) => wall_color(i),
        None => clear_color(height, y),
    }
}

/// Renders one frame of a scene of projected walls.
///
/// The frame is cleared to sky and ground, the walls are painted farthest
/// first, each in the palette colour of its index, and the ceiling and floor
/// left open are filled in the columns that a wall spans. Each pixel of the
/// frame ends as `frame_pixel` says; what the buffer holds behind the frame is
/// left alone.
pub fn render_frame(buf: &mut [u32], width: usize, height: usize, walls: &Vec<ProjectedWall>)
    requires
        height <= i32::MAX,
        width * height <= old(buf)@.len(),
        forall|j: int| 0 <= j < walls@.len() ==> (#[trigger] walls@[j]).fits(width as int),
    ensures
        final(buf)@.len() == old(buf)@.len(),
        forall|i: int|
            0 <= i < width * height ==> #[trigger] final(buf)@[i] == frame_pixel(
                walls@,
                height as int,
                column_of(i, width as int),
                row_of(i, width as int),
            ),
        forall|i: int| width * height <= i < old(buf)@.len() ==> final(buf)@[i] == old(buf)@[i],
{
    clear_frame(buf, width, height);
    if walls.is_empty() {
        return ;
    }
    let mut ceil_clip: Vec<i32> = vec![height as i32; width];
    let mut floor_clip: Vec<i32> = vec![-1; width];
    let order = paint_order(walls);
    let count = order.len();
    let mut done: usize = 0;
    while done < count
        invariant
            done <= count,
            count == order@.len(),
            is_paint_order(order@, walls@),
            height <= i32::MAX,
            width * height <= buf@.len(),
            forall|j: int| 0 <= j < walls@.len() ==> (#[trigger] walls@[j]).fits(width as int),
            buf@.len() == old(buf)@.len(),
            ceil_clip@.len() == width,
            floor_clip@.len() == width,
            forall|i: int|
                0 <= i < width * height ==> #[trigger] buf@[i] == painted_color(
                    last_painted(
                        walls@,
                        order@,
                        done as int,
                        height as int,
                        column_of(i, width as int),
                        row_of(i, width as int),
                    ),
                    height as int,
                    row_of(i, width as int),
                ),
            forall|i: int| width * height <= i < buf@.len() ==> buf@[i] == old(buf)@[i],
            forall|x: int|
                0 <= x < width ==> #[trigger] ceil_clip@[x] == ceiling_after(
                    walls@,
                    order@,
                    done as int,
                    height as int,
                    x,
                ),
            forall|x: int|
                0 <= x < width ==> #[trigger] floor_clip@[x] == floor_after(
                    walls@,
                    order@,
                    done as int,
                    height as int,
                    x,
                ),
        decreases count - done,
    {
        let index = order[done];
        let color = palette_color(index);
        let ghost before = buf@;
        draw_solid_wall(
            buf,
            width,
            height,
            &walls[index],
            color,
            ceil_clip.as_mut_slice(),
            floor_clip.as_mut_slice(),
        );
        proof {
            assert forall|i: int| width * height <= i < buf@.len() implies buf@[i] == old(buf)@[i] by {
                let _ = before[i];
                if width > 0 {
                    lemma_row_outside_image(i, width as int, height as int);
                }
            }
        }
        done += 1;
    }
    backfill_open_columns(buf, width, height, ceil_clip.as_slice(), floor_clip.as_slice());
    proof {
        assert forall|i: int| 0 <= i < width * height implies #[trigger] buf@[i] == frame_pixel(
            walls@,
            height as int,
            column_of(i, width as int),
            row_of(i, width as int),
        ) by {
            let x = column_of(i, width as int);
            let y = row_of(i, width as int);
            lemma_row_in_image(i, width as int, height as int);
            lemma_painting_shows_front_wall(walls@, order@, height as int, x, y);
            lemma_painting_leaves_open_clips(walls@, order@, height as int, x);
            lemma_front_wall_is_in_front(walls@, walls@.len() as int, height as int, x, y);
            match front_wall(walls@, walls@.len() as int, height as int, x, y) {
                Some(j) => {
                    lemma_walls_lie_between_clips(walls@, height as int, x, y, j);
                },
                None => {},
            }
        }
    }
}

} // verus!
