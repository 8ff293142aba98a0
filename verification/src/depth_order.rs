//! The order in which walls are painted: farthest first, so that a nearer
//! wall overwrites a farther one. Walls of equal depth keep the order of
//! their indices.

use vstd::prelude::*;
use crate::renderer::ProjectedWall;

verus! {

/// Wall `a` is painted before wall `b`: it is farther away, or as far and
/// earlier in the scene.
pub open spec fn paints_before(walls: Seq<ProjectedWall>, a: int, b: int) -> bool {
    walls[a].depth > walls[b].depth || (walls[a].depth == walls[b].depth && a < b)
}

/// Wall index `j` stands somewhere in `order`.
pub open spec fn occurs_in(order: Seq<usize>, j: int) -> bool {
    exists|k: int| 0 <= k < order.len() && #[trigger] order[k] == j
}

/// `order` lists every wall index once, each painted before all that follow.
pub open spec fn is_paint_order(order: Seq<usize>, walls: Seq<ProjectedWall>) -> bool {
    &&& order.len() == walls.len()
    &&& forall|k: int| 0 <= k < order.len() ==> (#[trigger] order[k]) < walls.len()
    &&& forall|j: int| 0 <= j < walls.len() ==> #[trigger] occurs_in(order, j)
    &&& forall|k: int, l: int|
        0 <= k < l < order.len() ==> paints_before(
            walls,
            #[trigger] order[k] as int,
            #[trigger] order[l] as int,
        )
}

/// `order` lists the first `count` wall indices, each once, each painted
/// before all that follow.
spec fn lists_first_walls(order: Seq<usize>, walls: Seq<ProjectedWall>, count: int) -> bool {
    &&& order.len() == count
    &&& forall|k: int| 0 <= k < order.len() ==> (#[trigger] order[k]) < count
    &&& forall|j: int| 0 <= j < count ==> #[trigger] occurs_in(order, j)
    &&& forall|k: int, l: int|
        0 <= k < l < order.len() ==> paints_before(
            walls,
            #[trigger] order[k] as int,
            #[trigger] order[l] as int,
        )
}

/// Putting wall `next` behind every listed wall that is at least as deep
/// keeps the list sorted and complete.
proof fn lemma_insert_keeps_order(
    order: Seq<usize>,
    walls: Seq<ProjectedWall>,
    next: usize,
    pos: int,
)
    requires
        lists_first_walls(order, walls, next as int),
        (next as int) < walls.len(),
        0 <= pos <= order.len(),
        forall|k: int| 0 <= k < pos ==> walls[order[k] as int].depth >= walls[next as int].depth,
        forall|k: int|
            pos <= k < order.len() ==> walls[order[k] as int].depth < walls[next as int].depth,
    ensures
        lists_first_walls(order.insert(pos, next), walls, next + 1),
{
    let grown = order.insert(pos, next);
    order.insert_ensures(pos, next);
    assert forall|k: int| 0 <= k < grown.len() implies (#[trigger] grown[k]) < next + 1 by {
        if k < pos {
            assert(grown[k] == order[k]);
        } else if k > pos {
            assert(grown[k] == order[k - 1]);
        }
    }
    assert forall|j: int| 0 <= j < next + 1 implies #[trigger] occurs_in(grown, j) by {
        if j == next {
            assert(grown[pos] == j);
        } else {
            assert(occurs_in(order, j));
            let k = choose|k: int| 0 <= k < order.len() && #[trigger] order[k] == j;
            if k < pos {
                assert(grown[k] == j);
            } else {
                assert(grown[k + 1] == j);
            }
        }
    }
    assert forall|k: int, l: int| 0 <= k < l < grown.len() implies paints_before(
        walls,
        #[trigger] grown[k] as int,
        #[trigger] grown[l] as int,
    ) by {
        let a = if k < pos { k } else { k - 1 };
        let b = if l < pos { l } else { l - 1 };
        if k != pos && l != pos {
            assert(grown[k] == order[a] && grown[l] == order[b]);
            assert(paints_before(walls, order[a] as int, order[b] as int));
        } else if k == pos {
            assert(grown[l] == order[b]);
        } else {
            assert(grown[k] == order[a]);
        }
    }
}

/// Sorts the wall indices for painting: by falling depth, and among walls of
/// one depth by rising index.
pub fn paint_order(walls: &Vec<ProjectedWall>) -> (order: Vec<usize>)
    ensures
        is_paint_order(order@, walls@),
{
    let count = walls.len();
    let mut order: Vec<usize> = Vec::new();
    let mut next: usize = 0;
    while next < count
        invariant
            next <= count,
            count == walls@.len(),
            lists_first_walls(order@, walls@, next as int),
        decreases count - next,
    {
        let depth = walls[next].depth;
        let mut pos: usize = 0;
        while pos < order.len() && walls[order[pos]].depth >= depth
            invariant
                pos <= order@.len(),
                next < count,
                count == walls@.len(),
                depth == walls@[next as int].depth,
                lists_first_walls(order@, walls@, next as int),
                forall|k: int| 0 <= k < pos ==> walls@[order@[k] as int].depth >= depth,
            decreases order@.len() - pos,
        {
            pos += 1;
        }
        proof {
            assert forall|k: int| pos <= k < order@.len() implies walls@[order@[k] as int].depth
                < depth by {
                if k > pos {
                    assert(paints_before(walls@, order@[pos as int] as int, order@[k] as int));
                }
            }
            lemma_insert_keeps_order(order@, walls@, next, pos as int);
        }
        order.insert(pos, next);
        next += 1;
    }
    order
}

/// Two paint orders of one scene agree in their first `upto` places.
proof fn lemma_paint_orders_agree(
    a: Seq<usize>,
    b: Seq<usize>,
    walls: Seq<ProjectedWall>,
    upto: int,
)
    requires
        is_paint_order(a, walls),
        is_paint_order(b, walls),
        0 <= upto <= walls.len(),
    ensures
        forall|i: int| 0 <= i < upto ==> a[i] == b[i],
    decreases upto,
{
    if upto > 0 {
        lemma_paint_orders_agree(a, b, walls, upto - 1);
        let k = upto - 1;
        let in_a = a[k] as int;
        let in_b = b[k] as int;
        assert(occurs_in(b, in_a));
        let m = choose|m: int| 0 <= m < b.len() && #[trigger] b[m] == in_a;
        assert(occurs_in(a, in_b));
        let n = choose|n: int| 0 <= n < a.len() && #[trigger] a[n] == in_b;
        if m < k {
            assert(paints_before(walls, a[m] as int, a[k] as int));
        } else if m > k {
            if n < k {
                assert(paints_before(walls, b[n] as int, b[k] as int));
            } else if n > k {
                assert(paints_before(walls, a[k] as int, a[n] as int));
                assert(paints_before(walls, b[k] as int, b[m] as int));
            } else {
                assert(paints_before(walls, b[k] as int, b[m] as int));
            }
        }
    }
}

/// A scene has one paint order only: being a paint order pins the sequence
/// down.
pub proof fn lemma_paint_order_is_unique(a: Seq<usize>, b: Seq<usize>, walls: Seq<ProjectedWall>)
    requires
        is_paint_order(a, walls),
        is_paint_order(b, walls),
    ensures
        a == b,
{
    lemma_paint_orders_agree(a, b, walls, walls.len() as int);
    assert(a =~= b);
}

} // verus!
