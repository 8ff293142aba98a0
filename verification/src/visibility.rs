//! What a finished frame shows, stated per pixel: the nearest wall that
//! covers the pixel, else the ceiling or floor left open in its column, else
//! the cleared background.

use vstd::prelude::*;
use crate::depth_order::is_paint_order;
use crate::depth_order::occurs_in;
use crate::depth_order::paints_before;
use crate::renderer::backfill_color;
use crate::renderer::clear_color;
use crate::renderer::span_first;
use crate::renderer::span_last;
use crate::renderer::wall_color;
use crate::renderer::ProjectedWall;
use crate::renderer::CEILING_COLOR;
use crate::renderer::FLOOR_COLOR;

verus! {

/// Among the first `count` walls, the one that shows at pixel `(x, y)`: of
/// the walls that cover the pixel the nearest, and of several equally near
/// the one with the highest index. `None` where no wall covers the pixel.
pub open spec fn front_wall(
    walls: Seq<ProjectedWall>,
    count: int,
    height: int,
    x: int,
    y: int,
) -> Option<int>
    decreases count,
{
    if count <= 0 {
        None
    } else {
        let rest = front_wall(walls, count - 1, height, x, y);
        let i = count - 1;
        if walls[i].covers(height, x, y) && (rest is None || paints_before(
            walls,
            rest.unwrap(),
            i,
        )) {
            Some(i)
        } else {
            rest
        }
    }
}

/// The row above which the ceiling of column `x` is still open after the
/// first `count` walls: the highest first painted row of the walls that span
/// the column, and `height` where none does.
pub open spec fn open_ceiling(walls: Seq<ProjectedWall>, count: int, height: int, x: int) -> int
    decreases count,
{
    if count <= 0 {
        height
    } else {
        let rest = open_ceiling(walls, count - 1, height, x);
        let wall = walls[count - 1];
        if wall.touches(x) && span_first(wall.extent_at(x)) < rest {
            span_first(wall.extent_at(x))
        } else {
            rest
        }
    }
}

/// The row below which the floor of column `x` is still open after the first
/// `count` walls: the lowest last painted row of the walls that span the
/// column, and `-1` where none does.
pub open spec fn open_floor(walls: Seq<ProjectedWall>, count: int, height: int, x: int) -> int
    decreases count,
{
    if count <= 0 {
        -1
    } else {
        let rest = open_floor(walls, count - 1, height, x);
        let wall = walls[count - 1];
        if wall.touches(x) && span_last(wall.extent_at(x), height) > rest {
            span_last(wall.extent_at(x), height)
        } else {
            rest
        }
    }
}

/// The colour of pixel `(x, y)` in the finished frame of a scene.
pub open spec fn frame_pixel(walls: Seq<ProjectedWall>, height: int, x: int, y: int) -> u32 {
    match front_wall(walls, walls.len() as int, height, x, y) {
        Some(i) => wall_color(i),
        None => backfill_color(
            height,
            open_ceiling(walls, walls.len() as int, height, x),
            open_floor(walls, walls.len() as int, height, x),
            y,
            clear_color(height, y),
        ),
    }
}

/// The wall painted last at pixel `(x, y)` when the first `done` entries of
/// `order` have been painted one after another.
pub open spec fn last_painted(
    walls: Seq<ProjectedWall>,
    order: Seq<usize>,
    done: int,
    height: int,
    x: int,
    y: int,
) -> Option<int>
    decreases done,
{
    if done <= 0 {
        None
    } else {
        let i = order[done - 1] as int;
        if walls[i].covers(height, x, y) {
            Some(i)
        } else {
            last_painted(walls, order, done - 1, height, x, y)
        }
    }
}

/// The ceiling clip of column `x` when the first `done` entries of `order`
/// have been painted.
pub open spec fn ceiling_after(
    walls: Seq<ProjectedWall>,
    order: Seq<usize>,
    done: int,
    height: int,
    x: int,
) -> int
    decreases done,
{
    if done <= 0 {
        height
    } else {
        let rest = ceiling_after(walls, order, done - 1, height, x);
        let wall = walls[order[done - 1] as int];
        if wall.touches(x) && span_first(wall.extent_at(x)) < rest {
            span_first(wall.extent_at(x))
        } else {
            rest
        }
    }
}

/// The floor clip of column `x` when the first `done` entries of `order` have
/// been painted.
pub open spec fn floor_after(
    walls: Seq<ProjectedWall>,
    order: Seq<usize>,
    done: int,
    height: int,
    x: int,
) -> int
    decreases done,
{
    if done <= 0 {
        -1
    } else {
        let rest = floor_after(walls, order, done - 1, height, x);
        let wall = walls[order[done - 1] as int];
        if wall.touches(x) && span_last(wall.extent_at(x), height) > rest {
            span_last(wall.extent_at(x), height)
        } else {
            rest
        }
    }
}

/// `front_wall` names a wall that covers the pixel and is painted after every
/// other wall that covers it; it names none only where no wall covers it.
pub proof fn lemma_front_wall_is_in_front(
    walls: Seq<ProjectedWall>,
    count: int,
    height: int,
    x: int,
    y: int,
)
    requires
        0 <= count <= walls.len(),
    ensures
        match front_wall(walls, count, height, x, y) {
            Some(i) => {
                &&& 0 <= i < count
                &&& walls[i].covers(height, x, y)
                &&& forall|j: int|
                    0 <= j < count && j != i && (#[trigger] walls[j]).covers(height, x, y)
                        ==> paints_before(walls, j, i)
            },
            None => forall|j: int| 0 <= j < count ==> !(#[trigger] walls[j]).covers(height, x, y),
        },
    decreases count,
{
    if count > 0 {
        lemma_front_wall_is_in_front(walls, count - 1, height, x, y);
    }
}

/// Painting in `order` leaves at each pixel the wall that covers it latest in
/// the order.
proof fn lemma_last_painted_is_latest(
    walls: Seq<ProjectedWall>,
    order: Seq<usize>,
    done: int,
    height: int,
    x: int,
    y: int,
)
    requires
        0 <= done <= order.len(),
    ensures
        match last_painted(walls, order, done, height, x, y) {
            Some(i) => exists|m: int|
                {
                    &&& 0 <= m < done
                    &&& #[trigger] order[m] == i
                    &&& walls[i].covers(height, x, y)
                    &&& forall|m2: int|
                        m < m2 < done ==> !walls[#[trigger] order[m2] as int].covers(height, x, y)
                },
            None => forall|m: int|
                0 <= m < done ==> !walls[#[trigger] order[m] as int].covers(height, x, y),
        },
    decreases done,
{
    if done > 0 {
        lemma_last_painted_is_latest(walls, order, done - 1, height, x, y);
        let i = order[done - 1] as int;
        if walls[i].covers(height, x, y) {
            assert(order[done - 1] == i);
        } else {
            match last_painted(walls, order, done - 1, height, x, y) {
                Some(w) => {
                    let m = choose|m: int|
                        {
                            &&& 0 <= m < done - 1
                            &&& #[trigger] order[m] == w
                            &&& walls[w].covers(height, x, y)
                            &&& forall|m2: int|
                                m < m2 < done - 1 ==> !walls[#[trigger] order[m2] as int].covers(
                                    height,
                                    x,
                                    y,
                                )
                        };
                    assert(order[m] == w);
                },
                None => {},
            }
        }
    }
}

/// Painting every wall in paint order leaves at each pixel the wall that
/// `front_wall` names.
pub proof fn lemma_painting_shows_front_wall(
    walls: Seq<ProjectedWall>,
    order: Seq<usize>,
    height: int,
    x: int,
    y: int,
)
    requires
        is_paint_order(order, walls),
    ensures
        last_painted(walls, order, order.len() as int, height, x, y) == front_wall(
            walls,
            walls.len() as int,
            height,
            x,
            y,
        ),
{
    let n = walls.len() as int;
    lemma_front_wall_is_in_front(walls, n, height, x, y);
    lemma_last_painted_is_latest(walls, order, n, height, x, y);
    let painted = last_painted(walls, order, n, height, x, y);
    let front = front_wall(walls, n, height, x, y);
    match painted {
        Some(w) => {
            let m = choose|m: int|
                {
                    &&& 0 <= m < n
                    &&& #[trigger] order[m] == w
                    &&& walls[w].covers(height, x, y)
                    &&& forall|m2: int|
                        m < m2 < n ==> !walls[#[trigger] order[m2] as int].covers(height, x, y)
                };
            assert(walls[w].covers(height, x, y));
            assert(front is Some);
            let f = front.unwrap();
            if f != w {
                assert(occurs_in(order, f));
                let mf = choose|mf: int| 0 <= mf < order.len() && #[trigger] order[mf] == f;
                assert(mf < m);
                assert(paints_before(walls, order[mf] as int, order[m] as int));
                assert(paints_before(walls, w, f));
            }
        },
        None => {
            match front {
                Some(f) => {
                    assert(occurs_in(order, f));
                    let mf = choose|mf: int| 0 <= mf < order.len() && #[trigger] order[mf] == f;
                },
                None => {},
            }
        },
    }
}

/// `open_ceiling` is at most `height`, at most the first painted row of every
/// wall that spans the column, and is one of these.
pub proof fn lemma_open_ceiling_is_highest(
    walls: Seq<ProjectedWall>,
    count: int,
    height: int,
    x: int,
)
    requires
        0 <= count <= walls.len(),
    ensures
        open_ceiling(walls, count, height, x) <= height,
        forall|j: int|
            0 <= j < count && (#[trigger] walls[j]).touches(x) ==> open_ceiling(
                walls,
                count,
                height,
                x,
            ) <= span_first(walls[j].extent_at(x)),
        open_ceiling(walls, count, height, x) == height || exists|j: int|
            0 <= j < count && (#[trigger] walls[j]).touches(x) && span_first(walls[j].extent_at(x))
                == open_ceiling(walls, count, height, x),
    decreases count,
{
    if count > 0 {
        lemma_open_ceiling_is_highest(walls, count - 1, height, x);
        let rest = open_ceiling(walls, count - 1, height, x);
        let now = open_ceiling(walls, count, height, x);
        if now != height {
            if now == rest {
                let j = choose|j: int|
                    0 <= j < count - 1 && (#[trigger] walls[j]).touches(x) && span_first(
                        walls[j].extent_at(x),
                    ) == rest;
                assert(walls[j].touches(x));
            } else {
                assert(walls[count - 1].touches(x));
            }
        }
    }
}

/// `open_floor` is at least `-1`, at least the last painted row of every wall
/// that spans the column, and is one of these.
pub proof fn lemma_open_floor_is_lowest(
    walls: Seq<ProjectedWall>,
    count: int,
    height: int,
    x: int,
)
    requires
        0 <= count <= walls.len(),
    ensures
        open_floor(walls, count, height, x) >= -1,
        forall|j: int|
            0 <= j < count && (#[trigger] walls[j]).touches(x) ==> open_floor(
                walls,
                count,
                height,
                x,
            ) >= span_last(walls[j].extent_at(x), height),
        open_floor(walls, count, height, x) == -1 || exists|j: int|
            0 <= j < count && (#[trigger] walls[j]).touches(x) && span_last(
                walls[j].extent_at(x),
                height,
            ) == open_floor(walls, count, height, x),
    decreases count,
{
    if count > 0 {
        lemma_open_floor_is_lowest(walls, count - 1, height, x);
        let rest = open_floor(walls, count - 1, height, x);
        let now = open_floor(walls, count, height, x);
        if now != -1 {
            if now == rest {
                let j = choose|j: int|
                    0 <= j < count - 1 && (#[trigger] walls[j]).touches(x) && span_last(
                        walls[j].extent_at(x),
                        height,
                    ) == rest;
                assert(walls[j].touches(x));
            } else {
                assert(walls[count - 1].touches(x));
            }
        }
    }
}

/// The ceiling clip after `done` painted walls is at most `height`, at most
/// the first painted row of each of them, and is one of these.
proof fn lemma_ceiling_after_is_highest(
    walls: Seq<ProjectedWall>,
    order: Seq<usize>,
    done: int,
    height: int,
    x: int,
)
    requires
        0 <= done <= order.len(),
    ensures
        ceiling_after(walls, order, done, height, x) <= height,
        forall|m: int|
            0 <= m < done && walls[#[trigger] order[m] as int].touches(x) ==> ceiling_after(
                walls,
                order,
                done,
                height,
                x,
            ) <= span_first(walls[order[m] as int].extent_at(x)),
        ceiling_after(walls, order, done, height, x) == height || exists|m: int|
            0 <= m < done && walls[#[trigger] order[m] as int].touches(x) && span_first(
                walls[order[m] as int].extent_at(x),
            ) == ceiling_after(walls, order, done, height, x),
    decreases done,
{
    if done > 0 {
        lemma_ceiling_after_is_highest(walls, order, done - 1, height, x);
        let rest = ceiling_after(walls, order, done - 1, height, x);
        let now = ceiling_after(walls, order, done, height, x);
        if now != height {
            if now == rest {
                let m = choose|m: int|
                    0 <= m < done - 1 && walls[#[trigger] order[m] as int].touches(x) && span_first(
                        walls[order[m] as int].extent_at(x),
                    ) == rest;
                assert(walls[order[m] as int].touches(x));
            } else {
                assert(walls[order[done - 1] as int].touches(x));
            }
        }
    }
}

/// The floor clip after `done` painted walls is at least `-1`, at least the
/// last painted row of each of them, and is one of these.
proof fn lemma_floor_after_is_lowest(
    walls: Seq<ProjectedWall>,
    order: Seq<usize>,
    done: int,
    height: int,
    x: int,
)
    requires
        0 <= done <= order.len(),
    ensures
        floor_after(walls, order, done, height, x) >= -1,
        forall|m: int|
            0 <= m < done && walls[#[trigger] order[m] as int].touches(x) ==> floor_after(
                walls,
                order,
                done,
                height,
                x,
            ) >= span_last(walls[order[m] as int].extent_at(x), height),
        floor_after(walls, order, done, height, x) == -1 || exists|m: int|
            0 <= m < done && walls[#[trigger] order[m] as int].touches(x) && span_last(
                walls[order[m] as int].extent_at(x),
                height,
            ) == floor_after(walls, order, done, height, x),
    decreases done,
{
    if done > 0 {
        lemma_floor_after_is_lowest(walls, order, done - 1, height, x);
        let rest = floor_after(walls, order, done - 1, height, x);
        let now = floor_after(walls, order, done, height, x);
        if now != -1 {
            if now == rest {
                let m = choose|m: int|
                    0 <= m < done - 1 && walls[#[trigger] order[m] as int].touches(x) && span_last(
                        walls[order[m] as int].extent_at(x),
                        height,
                    ) == rest;
                assert(walls[order[m] as int].touches(x));
            } else {
                assert(walls[order[done - 1] as int].touches(x));
            }
        }
    }
}

/// Painting every wall, in whatever complete order, leaves the clips that
/// `open_ceiling` and `open_floor` name.
pub proof fn lemma_painting_leaves_open_clips(
    walls: Seq<ProjectedWall>,
    order: Seq<usize>,
    height: int,
    x: int,
)
    requires
        is_paint_order(order, walls),
    ensures
        ceiling_after(walls, order, order.len() as int, height, x) == open_ceiling(
            walls,
            walls.len() as int,
            height,
            x,
        ),
        floor_after(walls, order, order.len() as int, height, x) == open_floor(
            walls,
            walls.len() as int,
            height,
            x,
        ),
{
    let n = walls.len() as int;
    lemma_open_ceiling_is_highest(walls, n, height, x);
    lemma_ceiling_after_is_highest(walls, order, n, height, x);
    lemma_open_floor_is_lowest(walls, n, height, x);
    lemma_floor_after_is_lowest(walls, order, n, height, x);
    let c1 = ceiling_after(walls, order, n, height, x);
    let c2 = open_ceiling(walls, n, height, x);
    if c1 != height {
        let m = choose|m: int|
            0 <= m < n && walls[#[trigger] order[m] as int].touches(x) && span_first(
                walls[order[m] as int].extent_at(x),
            ) == c1;
        assert(walls[order[m] as int].touches(x));
    }
    if c2 != height {
        let j = choose|j: int|
            0 <= j < n && (#[trigger] walls[j]).touches(x) && span_first(walls[j].extent_at(x))
                == c2;
        assert(occurs_in(order, j));
        let m = choose|m: int| 0 <= m < order.len() && #[trigger] order[m] == j;
        assert(walls[order[m] as int].touches(x));
    }
    let f1 = floor_after(walls, order, n, height, x);
    let f2 = open_floor(walls, n, height, x);
    if f1 != -1 {
        let m = choose|m: int|
            0 <= m < n && walls[#[trigger] order[m] as int].touches(x) && span_last(
                walls[order[m] as int].extent_at(x),
                height,
            ) == f1;
        assert(walls[order[m] as int].touches(x));
    }
    if f2 != -1 {
        let j = choose|j: int|
            0 <= j < n && (#[trigger] walls[j]).touches(x) && span_last(
                walls[j].extent_at(x),
                height,
            ) == f2;
        assert(occurs_in(order, j));
        let m = choose|m: int| 0 <= m < order.len() && #[trigger] order[m] == j;
        assert(walls[order[m] as int].touches(x));
    }
}

/// A pixel that a wall covers lies between the open ceiling and the open
/// floor of its column, so the backfill never paints over a wall.
pub proof fn lemma_walls_lie_between_clips(
    walls: Seq<ProjectedWall>,
    height: int,
    x: int,
    y: int,
    j: int,
)
    requires
        0 <= j < walls.len(),
        walls[j].covers(height, x, y),
    ensures
        open_ceiling(walls, walls.len() as int, height, x) <= y <= open_floor(
            walls,
            walls.len() as int,
            height,
            x,
        ),
{
    lemma_open_ceiling_is_highest(walls, walls.len() as int, height, x);
    lemma_open_floor_is_lowest(walls, walls.len() as int, height, x);
    assert(walls[j].touches(x));
}

/// Where walls overlap on screen the nearest one shows: a wall that covers a
/// pixel and is painted after every other wall that covers it gives the
/// pixel its colour.
pub proof fn lemma_nearest_wall_shows(
    walls: Seq<ProjectedWall>,
    height: int,
    x: int,
    y: int,
    i: int,
)
    requires
        0 <= i < walls.len(),
        walls[i].covers(height, x, y),
        forall|j: int|
            0 <= j < walls.len() && j != i && (#[trigger] walls[j]).covers(height, x, y)
                ==> paints_before(walls, j, i),
    ensures
        front_wall(walls, walls.len() as int, height, x, y) == Some(i),
        frame_pixel(walls, height, x, y) == wall_color(i),
{
    lemma_front_wall_is_in_front(walls, walls.len() as int, height, x, y);
    let front = front_wall(walls, walls.len() as int, height, x, y);
    assert(front is Some);
    if front.unwrap() != i {
        assert(paints_before(walls, front.unwrap(), i));
        assert(paints_before(walls, i, front.unwrap()));
    }
}

/// Of two walls that cover the same pixel, the farther one never shows
/// there.
pub proof fn lemma_farther_wall_is_hidden(
    walls: Seq<ProjectedWall>,
    height: int,
    x: int,
    y: int,
    near: int,
    far: int,
)
    requires
        0 <= near < walls.len(),
        0 <= far < walls.len(),
        walls[near].covers(height, x, y),
        walls[far].covers(height, x, y),
        walls[near].depth < walls[far].depth,
    ensures
        front_wall(walls, walls.len() as int, height, x, y) != Some(far),
{
    lemma_front_wall_is_in_front(walls, walls.len() as int, height, x, y);
}

/// In a scene of two walls at different depths, a pixel that both cover has
/// the colour of the nearer wall and not that of the farther one.
pub proof fn lemma_nearer_of_two_walls_shows(
    walls: Seq<ProjectedWall>,
    height: int,
    x: int,
    y: int,
    near: int,
)
    requires
        walls.len() == 2,
        0 <= near < 2,
        walls[0].covers(height, x, y),
        walls[1].covers(height, x, y),
        walls[near].depth < walls[1 - near].depth,
    ensures
        frame_pixel(walls, height, x, y) == wall_color(near),
        frame_pixel(walls, height, x, y) != wall_color(1 - near),
{
    assert forall|j: int|
        0 <= j < walls.len() && j != near && (#[trigger] walls[j]).covers(
            height,
            x,
            y,
        ) implies paints_before(walls, j, near) by {
        assert(j == 1 - near);
    }
    lemma_nearest_wall_shows(walls, height, x, y, near);
}

/// A wall without extents, such as one culled before projection, spans no
/// column and covers no pixel.
pub proof fn lemma_wall_without_extents_is_invisible(wall: ProjectedWall, height: int, x: int, y: int)
    requires
        wall.extents@.len() == 0,
    ensures
        !wall.touches(x),
        !wall.covers(height, x, y),
{
}

/// A column that no wall spans keeps the cleared background in every row.
pub proof fn lemma_unspanned_column_keeps_background(
    walls: Seq<ProjectedWall>,
    height: int,
    x: int,
    y: int,
)
    requires
        forall|j: int| 0 <= j < walls.len() ==> !(#[trigger] walls[j]).touches(x),
    ensures
        frame_pixel(walls, height, x, y) == clear_color(height, y),
{
    let n = walls.len() as int;
    lemma_front_wall_is_in_front(walls, n, height, x, y);
    lemma_open_ceiling_is_highest(walls, n, height, x);
    lemma_open_floor_is_lowest(walls, n, height, x);
}

/// The frame of a scene with one wall: the wall's colour where it paints, in
/// the columns it spans ceiling colour above it and floor colour below it,
/// and the cleared background everywhere else.
pub proof fn lemma_single_wall_frame(walls: Seq<ProjectedWall>, height: int, x: int, y: int)
    requires
        walls.len() == 1,
    ensures
        frame_pixel(walls, height, x, y) == (if walls[0].covers(height, x, y) {
            wall_color(0)
        } else if walls[0].touches(x) && 0 <= span_last(walls[0].extent_at(x), height) < y {
            FLOOR_COLOR
        } else if walls[0].touches(x) && y < span_first(walls[0].extent_at(x)) < height {
            CEILING_COLOR
        } else {
            clear_color(height, y)
        }),
{
    reveal_with_fuel(front_wall, 2);
    reveal_with_fuel(open_ceiling, 2);
    reveal_with_fuel(open_floor, 2);
}

} // verus!
