use sector_raster::depth_order::paint_order;
use sector_raster::renderer::backfill_open_columns;
use sector_raster::renderer::clear_frame;
use sector_raster::renderer::column_range;
use sector_raster::renderer::draw_solid_wall;
use sector_raster::renderer::pack_rgb;
use sector_raster::renderer::palette_color;
use sector_raster::renderer::render_frame;
use sector_raster::renderer::ColumnExtent;
use sector_raster::renderer::ColumnRange;
use sector_raster::renderer::ProjectedWall;
use sector_raster::renderer::CEILING_COLOR;
use sector_raster::renderer::FLOOR_COLOR;
use sector_raster::renderer::GROUND_COLOR;
use sector_raster::renderer::SKY_COLOR;

const PALETTE: [u32; 4] = [0x00C8_C8C8, 0x00B4_B4FA, 0x00FA_B4B4, 0x00B4_FAB4];

fn slab(depth: i32, left: usize, columns: usize, top: i32, bottom: i32) -> ProjectedWall {
    ProjectedWall { depth, left, extents: vec![ColumnExtent { top, bottom }; columns] }
}

fn culled(depth: i32) -> ProjectedWall {
    ProjectedWall { depth, left: 0, extents: Vec::new() }
}

fn cleared(width: usize, height: usize) -> Vec<u32> {
    let mut frame = vec![0u32; width * height];
    clear_frame(&mut frame, width, height);
    frame
}

#[test]
fn pack_rgb_puts_blue_lowest() {
    assert_eq!(pack_rgb(0x12, 0x34, 0x56), 0x0012_3456);
    assert_eq!(pack_rgb(255, 0, 0), 0x00FF_0000);
    assert_eq!(pack_rgb(0, 255, 0), 0x0000_FF00);
    assert_eq!(pack_rgb(0, 0, 255), 0x0000_00FF);
    assert_eq!(pack_rgb(0, 0, 0), 0);
    assert_eq!(pack_rgb(255, 255, 255), 0x00FF_FFFF);
}

#[test]
fn fixed_colours_are_the_packed_ones() {
    assert_eq!(SKY_COLOR, pack_rgb(30, 30, 70));
    assert_eq!(GROUND_COLOR, pack_rgb(40, 40, 40));
    assert_eq!(CEILING_COLOR, pack_rgb(200, 200, 200));
    assert_eq!(FLOOR_COLOR, pack_rgb(30, 30, 70));
}

#[test]
fn palette_repeats_every_four_walls() {
    assert_eq!(palette_color(0), pack_rgb(200, 200, 200));
    assert_eq!(palette_color(1), pack_rgb(180, 180, 250));
    assert_eq!(palette_color(2), pack_rgb(250, 180, 180));
    assert_eq!(palette_color(3), pack_rgb(180, 250, 180));
    for i in 0..40 {
        assert_eq!(palette_color(i), PALETTE[i % 4]);
    }
    assert_eq!(palette_color(usize::MAX), PALETTE[3]);
}

#[test]
fn column_range_orders_and_clamps() {
    assert_eq!(column_range(2, 5, 10), Some(ColumnRange { left: 2, right: 5, swapped: false }));
    assert_eq!(column_range(5, 2, 10), Some(ColumnRange { left: 2, right: 5, swapped: true }));
    assert_eq!(column_range(-7, 5, 10), Some(ColumnRange { left: 0, right: 5, swapped: false }));
    assert_eq!(column_range(3, 40, 10), Some(ColumnRange { left: 3, right: 9, swapped: false }));
    assert_eq!(
        column_range(i32::MAX, i32::MIN, 10),
        Some(ColumnRange { left: 0, right: 9, swapped: true })
    );
}

#[test]
fn column_range_of_a_frame_wider_than_any_column_number() {
    let right = i32::MAX as usize;
    assert_eq!(
        column_range(5, i32::MAX, usize::MAX),
        Some(ColumnRange { left: 5, right, swapped: false })
    );
    assert_eq!(
        column_range(i32::MAX, -1, right + 1),
        Some(ColumnRange { left: 0, right, swapped: true })
    );
    assert_eq!(
        column_range(i32::MAX, 0, right),
        Some(ColumnRange { left: 0, right: right - 1, swapped: true })
    );
}

#[test]
fn column_range_rejects_fewer_than_two_columns() {
    assert_eq!(column_range(4, 4, 10), None);
    assert_eq!(column_range(-9, -3, 10), None);
    assert_eq!(column_range(-9, 0, 10), None);
    assert_eq!(column_range(9, 30, 10), None);
    assert_eq!(column_range(10, 30, 10), None);
    assert_eq!(column_range(0, 5, 1), None);
    assert_eq!(column_range(0, 5, 0), None);
    assert_eq!(column_range(8, 9, 10), Some(ColumnRange { left: 8, right: 9, swapped: false }));
}

#[test]
fn clear_frame_splits_sky_and_ground() {
    let (w, h) = (3usize, 5usize);
    let mut frame = vec![0xDEAD_BEEFu32; w * h + 2];
    clear_frame(&mut frame, w, h);
    for y in 0..h {
        for x in 0..w {
            assert_eq!(frame[y * w + x], if y < 2 { SKY_COLOR } else { GROUND_COLOR });
        }
    }
    assert_eq!(&frame[w * h..], &[0xDEAD_BEEF; 2]);
}

#[test]
fn clear_frame_of_one_row_is_ground() {
    let mut frame = vec![0u32; 4];
    clear_frame(&mut frame, 4, 1);
    assert_eq!(frame, vec![GROUND_COLOR; 4]);
    let mut nothing: Vec<u32> = Vec::new();
    clear_frame(&mut nothing, 0, 0);
    clear_frame(&mut nothing, 0, 9);
    clear_frame(&mut nothing, 9, 0);
    assert!(nothing.is_empty());
}

#[test]
fn draw_fills_the_clamped_span_and_narrows_the_clips() {
    let (w, h) = (6usize, 8usize);
    let mut frame = vec![0u32; w * h];
    let mut ceil = vec![h as i32; w];
    let mut floor = vec![-1i32; w];
    let wall = ProjectedWall {
        depth: 0,
        left: 2,
        extents: vec![
            ColumnExtent { top: 2, bottom: 5 },
            ColumnExtent { top: 6, bottom: 3 },
            ColumnExtent { top: -4, bottom: 20 },
        ],
    };
    draw_solid_wall(&mut frame, w, h, &wall, 0x11, &mut ceil, &mut floor);
    let spans = [None, None, Some((2, 5)), Some((3, 6)), Some((0, 7)), None];
    for x in 0..w {
        for y in 0..h {
            let inside = matches!(spans[x], Some((a, b)) if a <= y && y <= b);
            assert_eq!(frame[y * w + x], if inside { 0x11 } else { 0 }, "pixel ({x}, {y})");
        }
    }
    assert_eq!(ceil, vec![8, 8, 2, 3, 0, 8]);
    assert_eq!(floor, vec![-1, -1, 5, 6, 7, -1]);
}

#[test]
fn draw_keeps_clips_that_are_already_narrower() {
    let (w, h) = (2usize, 10usize);
    let mut frame = vec![0u32; w * h];
    let mut ceil = vec![3, 7];
    let mut floor = vec![8, 4];
    let wall = slab(0, 0, 2, 5, 6);
    draw_solid_wall(&mut frame, w, h, &wall, 0x22, &mut ceil, &mut floor);
    assert_eq!(ceil, vec![3, 5]);
    assert_eq!(floor, vec![8, 6]);
}

#[test]
fn draw_of_a_span_off_screen_writes_nothing() {
    let (w, h) = (2usize, 4usize);
    let mut frame = vec![0u32; w * h];
    let mut ceil = vec![h as i32; w];
    let mut floor = vec![-1i32; w];
    let wall = ProjectedWall {
        depth: 0,
        left: 0,
        extents: vec![ColumnExtent { top: -9, bottom: -5 }, ColumnExtent { top: 6, bottom: 9 }],
    };
    draw_solid_wall(&mut frame, w, h, &wall, 0x33, &mut ceil, &mut floor);
    assert_eq!(frame, vec![0u32; w * h]);
    // Above the screen the span is clamped to rows 0..=-5, below to rows 6..=3.
    assert_eq!(ceil, vec![0, 4]);
    assert_eq!(floor, vec![-1, 3]);
}

#[test]
fn culled_wall_writes_nothing() {
    let (w, h) = (4usize, 4usize);
    let before: Vec<u32> = (0..(w * h) as u32).collect();
    let mut frame = before.clone();
    let mut ceil = vec![h as i32; w];
    let mut floor = vec![-1i32; w];
    draw_solid_wall(&mut frame, w, h, &culled(3), 0x44, &mut ceil, &mut floor);
    assert_eq!(frame, before);
    assert_eq!(ceil, vec![4; 4]);
    assert_eq!(floor, vec![-1; 4]);
}

#[test]
fn backfill_fills_above_and_below_in_narrowed_columns_only() {
    let (w, h) = (4usize, 6usize);
    let mut frame = vec![0u32; w * h + 1];
    frame[w * h] = 9;
    let ceil = vec![6, 2, 6, 0];
    let floor = vec![-1, 3, 4, 5];
    backfill_open_columns(&mut frame, w, h, &ceil, &floor);
    let expected = |x: usize, y: usize| match (x, y) {
        (0, _) => 0,
        (1, 0) | (1, 1) => CEILING_COLOR,
        (1, 4) | (1, 5) => FLOOR_COLOR,
        (2, 5) => FLOOR_COLOR,
        _ => 0,
    };
    for y in 0..h {
        for x in 0..w {
            assert_eq!(frame[y * w + x], expected(x, y), "pixel ({x}, {y})");
        }
    }
    assert_eq!(frame[w * h], 9);
}

#[test]
fn paint_order_is_farthest_first() {
    let walls = vec![culled(5), culled(9), culled(-3), culled(7)];
    assert_eq!(paint_order(&walls), vec![1, 3, 0, 2]);
    assert_eq!(paint_order(&Vec::new()), Vec::<usize>::new());
    assert_eq!(paint_order(&vec![culled(1)]), vec![0]);
}

#[test]
fn paint_order_keeps_equal_depths_in_scene_order() {
    let walls = vec![culled(4), culled(8), culled(4), culled(8), culled(4), culled(i32::MIN)];
    assert_eq!(paint_order(&walls), vec![1, 3, 0, 2, 4, 5]);
    let walls = vec![culled(0); 6];
    assert_eq!(paint_order(&walls), vec![0, 1, 2, 3, 4, 5]);
    let walls = vec![culled(i32::MIN), culled(i32::MAX), culled(0)];
    assert_eq!(paint_order(&walls), vec![1, 2, 0]);
}

#[test]
fn empty_scene_is_sky_and_ground() {
    let (w, h) = (5usize, 4usize);
    let mut frame = vec![0x1234u32; w * h];
    render_frame(&mut frame, w, h, &Vec::new());
    assert_eq!(frame, cleared(w, h));
}

#[test]
fn scene_of_culled_walls_is_sky_and_ground() {
    let (w, h) = (5usize, 4usize);
    let mut frame = vec![0x1234u32; w * h];
    render_frame(&mut frame, w, h, &vec![culled(1), culled(2)]);
    assert_eq!(frame, cleared(w, h));
}

#[test]
fn single_wall_gets_ceiling_above_and_floor_below() {
    let (w, h) = (8usize, 10usize);
    let mut frame = vec![0u32; w * h];
    render_frame(&mut frame, w, h, &vec![slab(10, 3, 2, 4, 6)]);
    for y in 0..h {
        for x in 0..w {
            let expected = if x == 3 || x == 4 {
                if y < 4 {
                    CEILING_COLOR
                } else if y <= 6 {
                    PALETTE[0]
                } else {
                    FLOOR_COLOR
                }
            } else if y < 5 {
                SKY_COLOR
            } else {
                GROUND_COLOR
            };
            assert_eq!(frame[y * w + x], expected, "pixel ({x}, {y})");
        }
    }
}

#[test]
fn nearer_wall_hides_farther_wall_where_they_overlap() {
    let (w, h) = (10usize, 10usize);
    // Wall 0 is far and spans columns 1..=6, wall 1 is near and spans 4..=8.
    let far = slab(20, 1, 6, 2, 7);
    let near = slab(10, 4, 5, 3, 6);
    for walls in [vec![far.clone(), near.clone()], vec![near.clone(), far.clone()]] {
        let near_index = if walls[0].depth < walls[1].depth { 0 } else { 1 };
        let mut frame = vec![0u32; w * h];
        render_frame(&mut frame, w, h, &walls);
        for x in 4..=6 {
            for y in 3..=6 {
                assert_eq!(frame[y * w + x], PALETTE[near_index]);
                assert_ne!(frame[y * w + x], PALETTE[1 - near_index]);
            }
            // The farther wall is taller and still shows above and below.
            assert_eq!(frame[2 * w + x], PALETTE[1 - near_index]);
            assert_eq!(frame[7 * w + x], PALETTE[1 - near_index]);
            assert_eq!(frame[w + x], CEILING_COLOR);
            assert_eq!(frame[8 * w + x], FLOOR_COLOR);
        }
        for x in 1..=3 {
            assert_eq!(frame[4 * w + x], PALETTE[1 - near_index]);
        }
        for x in 7..=8 {
            assert_eq!(frame[4 * w + x], PALETTE[near_index]);
            assert_eq!(frame[2 * w + x], CEILING_COLOR);
        }
        assert_eq!(frame[4 * w], SKY_COLOR);
        assert_eq!(frame[5 * w + 9], GROUND_COLOR);
    }
}

#[test]
fn equal_depths_let_the_later_wall_show() {
    let (w, h) = (4usize, 4usize);
    let mut frame = vec![0u32; w * h];
    render_frame(&mut frame, w, h, &vec![slab(5, 0, 4, 1, 2), slab(5, 1, 2, 1, 2)]);
    assert_eq!(frame[w], PALETTE[0]);
    assert_eq!(frame[w + 1], PALETTE[1]);
    assert_eq!(frame[w + 2], PALETTE[1]);
    assert_eq!(frame[w + 3], PALETTE[0]);
}

#[test]
fn gap_between_walls_of_one_column_keeps_the_background() {
    let (w, h) = (2usize, 12usize);
    let mut frame = vec![0u32; w * h + 3];
    render_frame(&mut frame, w, h, &vec![slab(5, 0, 1, 1, 2), slab(9, 0, 1, 8, 9)]);
    let column: Vec<u32> = (0..h).map(|y| frame[y * w]).collect();
    let (a, b) = (PALETTE[0], PALETTE[1]);
    let expected = vec![
        CEILING_COLOR, a, a, SKY_COLOR, SKY_COLOR, SKY_COLOR,
        GROUND_COLOR, GROUND_COLOR, b, b, FLOOR_COLOR, FLOOR_COLOR,
    ];
    assert_eq!(column, expected);
    for y in 0..h {
        assert_eq!(frame[y * w + 1], if y < 6 { SKY_COLOR } else { GROUND_COLOR });
    }
    assert_eq!(&frame[w * h..], &[0, 0, 0]);
}

#[test]
fn culled_walls_keep_their_place_in_the_palette() {
    let (w, h) = (3usize, 3usize);
    let mut frame = vec![0u32; w * h];
    render_frame(&mut frame, w, h, &vec![culled(1), culled(50), slab(7, 1, 1, 1, 1)]);
    assert_eq!(frame[w + 1], PALETTE[2]);
    assert_eq!(frame[1], CEILING_COLOR);
    assert_eq!(frame[2 * w + 1], FLOOR_COLOR);
    assert_eq!(frame[w], GROUND_COLOR);
}

// What follows projects a wall the way a driver does before it hands the
// scene to the rasteriser: camera transform, near-plane clip, perspective
// divide, and per column the perspective-correct wall height.

const NEAR: f32 = 0.1;

struct Eye {
    pos: [f32; 2],
    yaw: f32,
    eye_z: f32,
    fx: f32,
    fy: f32,
}

fn to_camera(eye: &Eye, p: [f32; 2]) -> [f32; 2] {
    let (dx, dy) = (p[0] - eye.pos[0], p[1] - eye.pos[1]);
    let (c, s) = (eye.yaw.cos(), eye.yaw.sin());
    [dx * c - dy * s, dx * s + dy * c]
}

fn project(eye: &Eye, start: [f32; 2], end: [f32; 2], floor_z: f32, ceiling_z: f32, w: usize, h: usize) -> ProjectedWall {
    let mid = to_camera(eye, [(start[0] + end[0]) * 0.5, (start[1] + end[1]) * 0.5]);
    let depth = (mid[1] * 1024.0) as i32;
    let nothing = ProjectedWall { depth, left: 0, extents: Vec::new() };
    let (mut pa, mut pb) = (to_camera(eye, start), to_camera(eye, end));
    if pa[1] <= NEAR && pb[1] <= NEAR {
        return nothing;
    }
    if pa[1] <= NEAR {
        let t = (NEAR - pa[1]) / (pb[1] - pa[1]);
        pa = [pa[0] + t * (pb[0] - pa[0]), NEAR];
    } else if pb[1] <= NEAR {
        let t = (NEAR - pb[1]) / (pa[1] - pb[1]);
        pb = [pb[0] + t * (pa[0] - pb[0]), NEAR];
    }
    let half = 0.5 * w as f32;
    let sx0 = eye.fx * (pa[0] / pa[1]) + half;
    let sx1 = eye.fx * (pb[0] / pb[1]) + half;
    if (sx0 - sx1).abs() < 0.5 {
        return nothing;
    }
    let range = match column_range(sx0.floor() as i32, sx1.floor() as i32, w) {
        Some(range) => range,
        None => return nothing,
    };
    if range.swapped {
        std::mem::swap(&mut pa, &mut pb);
    }
    let left_x = eye.fx * (pa[0] / pa[1]) + half;
    let span = eye.fx * (pb[0] / pb[1]) + half - left_x;
    let (inv0, inv1) = (1.0 / pa[1], 1.0 / pb[1]);
    let centre = 0.5 * h as f32;
    let mut extents = Vec::new();
    for x in range.left..=range.right {
        let alpha = (x as f32 - left_x) / span;
        let scale = eye.fy * (inv0 + alpha * (inv1 - inv0));
        let top = centre - scale * (ceiling_z - eye.eye_z);
        let bottom = centre - scale * (floor_z - eye.eye_z);
        extents.push(ColumnExtent { top: top.floor() as i32, bottom: bottom.floor() as i32 });
    }
    ProjectedWall { depth, left: range.left, extents }
}

fn eye_at_origin(w: usize, h: usize) -> Eye {
    let fx = 0.5 * w as f32 / (0.5 * 90.0f32.to_radians()).tan();
    Eye { pos: [0.0, 0.0], yaw: 0.0, eye_z: 1.7, fx, fy: fx / (w as f32 / h as f32) }
}

#[test]
fn wall_straight_ahead_is_a_centred_band() {
    let (w, h) = (640usize, 480usize);
    let eye = eye_at_origin(w, h);
    let wall = project(&eye, [-1.0, 8.0], [1.0, 8.0], 0.0, 3.0, w, h);
    let (left, right) = (wall.left, wall.left + wall.extents.len() - 1);
    // The band is centred: as far from the left edge as from the right one.
    assert!(left > 0 && right < w - 1);
    assert!((left as i64 - (w - 1 - right) as i64).abs() <= 1);
    assert_eq!((left, right), (280, 360));
    let (top, bottom) = (wall.extents[0].top, wall.extents[0].bottom);
    assert!(wall.extents.iter().all(|e| e.top == top && e.bottom == bottom));
    assert_eq!((top, bottom), (201, 291));

    let mut frame = vec![0u32; w * h];
    render_frame(&mut frame, w, h, &vec![wall]);
    for y in 0..h {
        for x in 0..w {
            let expected = if x < left || x > right {
                if y < h / 2 { SKY_COLOR } else { GROUND_COLOR }
            } else if y < top as usize {
                CEILING_COLOR
            } else if y <= bottom as usize {
                PALETTE[0]
            } else {
                FLOOR_COLOR
            };
            assert_eq!(frame[y * w + x], expected, "pixel ({x}, {y})");
        }
    }
}

#[test]
fn wall_behind_the_viewer_leaves_the_cleared_frame() {
    let (w, h) = (64usize, 48usize);
    let eye = eye_at_origin(w, h);
    let wall = project(&eye, [-1.0, -3.0], [1.0, 0.05], 0.0, 3.0, w, h);
    assert!(wall.extents.is_empty());
    let mut frame = vec![0u32; w * h];
    render_frame(&mut frame, w, h, &vec![wall]);
    assert_eq!(frame, cleared(w, h));
}

#[test]
fn nearer_projected_wall_hides_the_farther_one() {
    let (w, h) = (320usize, 240usize);
    let eye = eye_at_origin(w, h);
    let far = project(&eye, [-2.0, 10.0], [2.0, 10.0], 0.0, 3.0, w, h);
    let near = project(&eye, [-0.5, 5.0], [0.5, 5.0], 0.0, 3.0, w, h);
    assert!(near.depth < far.depth);
    let (near_left, near_right) = (near.left, near.left + near.extents.len() - 1);
    let (far_left, far_right) = (far.left, far.left + far.extents.len() - 1);
    assert!(far_left < near_left && near_right < far_right);
    let mut frame = vec![0u32; w * h];
    render_frame(&mut frame, w, h, &vec![near, far]);
    let row = h / 2;
    for x in far_left..=far_right {
        let expected = if near_left <= x && x <= near_right { PALETTE[0] } else { PALETTE[1] };
        assert_eq!(frame[row * w + x], expected, "column {x}");
    }
    // The nearer wall is the taller one on screen: in the columns that both
    // span, no pixel has kept the farther wall's colour.
    for x in near_left..=near_right {
        for y in 0..h {
            assert_ne!(frame[y * w + x], PALETTE[1], "pixel ({x}, {y})");
        }
    }
}
