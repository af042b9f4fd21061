//! Distance estimates from a cell to the goal, for grids `width` columns wide.

use vstd::prelude::*;

verus! {

/// The zero estimate: turns A* into uniform-cost search.
pub fn null_h(_i: usize, _goal: usize, _width: usize) -> (r: usize)
    ensures
        r == 0,
{
    0
}

pub open spec fn abs(x: int) -> nat {
    if x >= 0 {
        x as nat
    } else {
        (-x) as nat
    }
}

/// Rows plus columns between cells `i` and `goal`.
pub open spec fn manhattan(i: int, goal: int, width: int) -> nat {
    abs(i % width - goal % width) + abs(i / width - goal / width)
}

/// `|x - y|`, without underflow.
fn abs_diff(x: usize, y: usize) -> (r: usize)
    ensures
        r == abs(x - y),
{
    if x > y {
        x - y
    } else {
        y - x
    }
}

/// Both cells in a grid of `width * height` cells: the distance is below the
/// cell count.
pub proof fn lemma_manhattan_bound(i: int, goal: int, width: int, height: int)
    requires
        0 <= i < width * height,
        0 <= goal < width * height,
        width >= 1,
        height >= 1,
    ensures
        manhattan(i, goal, width) < width * height,
        manhattan(i, goal, width) <= (width - 1) + (height - 1),
{
    crate::grid::lemma_steps(i, width, height);
    crate::grid::lemma_steps(goal, width, height);
    assert((width - 1) + (height - 1) < width * height) by (nonlinear_arith)
        requires
            width >= 1,
            height >= 1,
    ;
}

/// For indices that fit in `usize`, the distance fits too.
proof fn lemma_manhattan_fits(i: int, goal: int, width: int)
    requires
        0 <= i <= usize::MAX,
        0 <= goal <= usize::MAX,
        width >= 1,
        width <= usize::MAX,
    ensures
        manhattan(i, goal, width) <= usize::MAX,
{
    let m = usize::MAX as int;
    let q = m / width;
    crate::grid::lemma_div_mod(i, width);
    crate::grid::lemma_div_mod(goal, width);
    crate::grid::lemma_div_mod(m, width);
    vstd::arithmetic::div_mod::lemma_div_is_ordered(i, m, width);
    vstd::arithmetic::div_mod::lemma_div_is_ordered(goal, m, width);
    assert(q + width - 1 <= m) by (nonlinear_arith)
        requires
            m == width * q + m % width,
            0 <= m % width < width,
            q >= 0,
            width >= 1,
            width <= m,
    ;
}

/// The Manhattan distance between cells `i` and `goal`.
pub fn manhattan_h(i: usize, goal: usize, width: usize) -> (r: usize)
    requires
        width >= 1,
    ensures
        r == manhattan(i as int, goal as int, width as int),
{
    proof {
        lemma_manhattan_fits(i as int, goal as int, width as int);
    }
    let i_row = i / width;
    let i_col = i % width;

    let goal_row = goal / width;
    let goal_col = goal % width;

    abs_diff(i_col, goal_col) + abs_diff(i_row, goal_row)
}

} // verus!
