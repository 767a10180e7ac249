//! Grid layout: a fixed number of columns of equal width, rows of a fixed
//! pitch.

use vstd::prelude::*;
use vstd::arithmetic::div_mod::{lemma_div_pos_is_pos, lemma_fundamental_div_mod, lemma_mod_pos_bound};
use crate::layout::node::{cached_sizes, set_rects, Node};
use crate::layout::rect::Rect;
use crate::layout::tree::{put, sizes_of};
use crate::style::properties::Grid;
use crate::units::{lemma_product_bounded, max_int, quotient, saturate, to_unit, Vec2};
use crate::widgets::base::Widget;

verus! {

/// The width of one column: what is left of the available width after the
/// gaps between the columns, in equal parts.
pub open spec fn column_width(grid: Grid, avail: Vec2) -> int {
    quotient(avail.x - grid.spec_gap().x * (grid.spec_cols() - 1), grid.spec_cols() as int)
}

/// The column of child `i`.
pub open spec fn cell_col(grid: Grid, i: int) -> int {
    i % (grid.spec_cols() as int)
}

/// The row of child `i`.
pub open spec fn cell_row(grid: Grid, i: int) -> int {
    i / (grid.spec_cols() as int)
}

/// The height that a child of measured size `size` is given: a row may be
/// taller than the grid's row height, never lower.
pub open spec fn cell_height(grid: Grid, size: Vec2) -> int {
    max_int(grid.spec_row_height() as int, size.y as int)
}

/// The distance from the content origin to the left edge of child `i`.
pub open spec fn offset_x(grid: Grid, avail: Vec2, i: int) -> int {
    cell_col(grid, i) * (column_width(grid, avail) + grid.spec_gap().x)
}

/// The distance from the content origin to the top edge of child `i`.
pub open spec fn offset_y(grid: Grid, i: int) -> int {
    cell_row(grid, i) * (grid.spec_row_height() + grid.spec_gap().y)
}

/// The rectangle of child `i`.
pub open spec fn cell_rect(grid: Grid, sizes: Seq<Vec2>, avail: Vec2, origin: Vec2, i: int) -> Rect {
    Rect {
        origin: Vec2 {
            x: saturate(origin.x + offset_x(grid, avail, i)) as i32,
            y: saturate(origin.y + offset_y(grid, i)) as i32,
        },
        size: Vec2 {
            x: saturate(column_width(grid, avail)) as i32,
            y: cell_height(grid, sizes[i]) as i32,
        },
    }
}

/// The distance from the content origin to the bottom edge of child `i`.
pub open spec fn bottom(grid: Grid, sizes: Seq<Vec2>, i: int) -> int {
    offset_y(grid, i) + cell_height(grid, sizes[i])
}

/// The lowest bottom edge among the first `n` children, and at least zero.
pub open spec fn lowest(grid: Grid, sizes: Seq<Vec2>, n: int) -> int
    decreases n,
{
    if n <= 0 {
        0
    } else {
        max_int(lowest(grid, sizes, n - 1), bottom(grid, sizes, n - 1))
    }
}

/// The size that the container reports for its content: the available
/// width, and the height down to the lowest bottom edge of a child.
pub open spec fn container_size(grid: Grid, sizes: Seq<Vec2>, avail: Vec2) -> Vec2 {
    Vec2 { x: avail.x, y: saturate(lowest(grid, sizes, sizes.len() as int)) as i32 }
}

/// Where child `i` stands is bounded by the number of children.
proof fn lemma_cell_bounded(grid: Grid, avail: Vec2, i: int)
    requires
        grid.spec_cols() >= 1,
        0 <= i <= usize::MAX,
    ensures
        0 <= cell_col(grid, i) < grid.spec_cols(),
        0 <= cell_row(grid, i) <= i,
        i == grid.spec_cols() * cell_row(grid, i) + cell_col(grid, i),
        -0x1_0000_0000_0000 <= column_width(grid, avail) <= 0x1_0000_0000_0000,
        -0x2_0000_0000_0000_0000 <= offset_x(grid, avail, i) <= 0x2_0000_0000_0000_0000,
        -0x1_0000_0000_0000_0000_0000_0000 <= offset_y(grid, i)
            <= 0x1_0000_0000_0000_0000_0000_0000,
{
    let cols = grid.spec_cols() as int;
    lemma_fundamental_div_mod(i, cols);
    lemma_mod_pos_bound(i, cols);
    lemma_div_pos_is_pos(i, cols);
    assert(i / cols <= i) by (nonlinear_arith)
        requires
            i == cols * (i / cols) + (i % cols),
            0 <= i % cols,
            cols >= 1,
            0 <= i / cols,
    ;
    let spread = avail.x - grid.spec_gap().x * (cols - 1);
    lemma_product_bounded(grid.spec_gap().x as int, 0x8000_0000, cols - 1, 0x1_0000);
    assert(-0x1_0000_0000_0000 <= spread <= 0x1_0000_0000_0000);
    if spread >= 0 {
        lemma_div_pos_is_pos(spread, cols);
        lemma_fundamental_div_mod(spread, cols);
        lemma_mod_pos_bound(spread, cols);
        assert(spread / cols <= spread) by (nonlinear_arith)
            requires
                spread == cols * (spread / cols) + (spread % cols),
                0 <= spread % cols,
                cols >= 1,
                0 <= spread / cols,
        ;
    } else {
        lemma_div_pos_is_pos(-spread, cols);
        lemma_fundamental_div_mod(-spread, cols);
        lemma_mod_pos_bound(-spread, cols);
        assert((-spread) / cols <= -spread) by (nonlinear_arith)
            requires
                -spread == cols * ((-spread) / cols) + ((-spread) % cols),
                0 <= (-spread) % cols,
                cols >= 1,
                0 <= (-spread) / cols,
        ;
    }
    lemma_product_bounded(
        cell_col(grid, i),
        0x1_0000,
        column_width(grid, avail) + grid.spec_gap().x,
        0x2_0000_0000_0000,
    );
    lemma_product_bounded(
        cell_row(grid, i),
        0x1_0000_0000_0000_0000,
        grid.spec_row_height() + grid.spec_gap().y,
        0x1_0000_0000,
    );
}

/// The lowest bottom edge is bounded by the number of children.
proof fn lemma_lowest_bounded(grid: Grid, sizes: Seq<Vec2>, avail: Vec2, n: int)
    requires
        grid.spec_cols() >= 1,
        0 <= n <= sizes.len() <= usize::MAX,
    ensures
        0 <= lowest(grid, sizes, n) <= 0x2_0000_0000_0000_0000_0000_0000,
    decreases n,
{
    if n > 0 {
        lemma_lowest_bounded(grid, sizes, avail, n - 1);
        lemma_cell_bounded(grid, avail, n - 1);
    }
}

/// Lays children of the measured `sizes` out in the cells of `grid`, row
/// by row, inside `avail` and from `origin` on: the rectangle of each, and
/// the size that the container reports for its content.
pub fn place(grid: Grid, sizes: &Vec<Vec2>, avail: Vec2, origin: Vec2) -> (placed: (
    Vec<Rect>,
    Vec2,
))
    ensures
        placed.0@.len() == sizes@.len(),
        forall|i: int|
            0 <= i < sizes@.len() ==> #[trigger] placed.0@[i] == cell_rect(
                grid,
                sizes@,
                avail,
                origin,
                i,
            ),
        placed.1 == container_size(grid, sizes@, avail),
{
    let cols = grid.cols();
    let row_height = grid.row_height();
    let gap = grid.gap();
    proof {
        lemma_cell_bounded(grid, avail, 0);
        lemma_product_bounded(gap.x as int, 0x8000_0000, cols - 1, 0x1_0000);
    }
    let width: i128 = (avail.x as i128 - gap.x as i128 * (cols as i128 - 1)) / cols as i128;
    let n = sizes.len();
    let mut rects: Vec<Rect> = Vec::new();
    let mut low: i128 = 0;
    let mut i: usize = 0;
    while i < n
        invariant
            i <= n,
            n == sizes@.len(),
            cols == grid.spec_cols(),
            cols >= 1,
            row_height == grid.spec_row_height(),
            gap == grid.spec_gap(),
            width == column_width(grid, avail),
            low == lowest(grid, sizes@, i as int),
            rects@.len() == i,
            forall|k: int|
                0 <= k < i ==> #[trigger] rects@[k] == cell_rect(grid, sizes@, avail, origin, k),
        decreases n - i,
    {
        proof {
            lemma_cell_bounded(grid, avail, i as int);
            lemma_lowest_bounded(grid, sizes@, avail, i as int);
        }
        let col = (i % (cols as usize)) as i128;
        let row = (i / (cols as usize)) as i128;
        let dx: i128 = col * (width + gap.x as i128);
        let dy: i128 = row * (row_height as i128 + gap.y as i128);
        let height: i32 = if row_height >= sizes[i].y {
            row_height
        } else {
            sizes[i].y
        };
        let rect = Rect {
            origin: Vec2 { x: to_unit(origin.x as i128 + dx), y: to_unit(origin.y as i128 + dy) },
            size: Vec2 { x: to_unit(width), y: height },
        };
        proof {
            assert(rect == cell_rect(grid, sizes@, avail, origin, i as int));
        }
        rects.push(rect);
        if dy + height as i128 > low {
            low = dy + height as i128;
        }
        i += 1;
    }
    (rects, Vec2 { x: avail.x, y: to_unit(low) })
}


/// The cells are filled row by row. In a grid of three columns the child
/// with the index 4 stands in column 1 of row 1, one row height and one
/// row gap below the content origin.
pub proof fn lemma_second_row(grid: Grid)
    requires
        grid.spec_cols() == 3,
    ensures
        cell_col(grid, 4) == 1,
        cell_row(grid, 4) == 1,
        offset_y(grid, 4) == grid.spec_row_height() + grid.spec_gap().y,
{
    assert(1 * (grid.spec_row_height() + grid.spec_gap().y) == grid.spec_row_height()
        + grid.spec_gap().y);
}

/// The child that comes one full row of children later stands in the same
/// column, one row further down.
pub proof fn lemma_next_row(grid: Grid, i: int)
    requires
        grid.spec_cols() >= 1,
        0 <= i,
    ensures
        cell_col(grid, i + grid.spec_cols()) == cell_col(grid, i),
        cell_row(grid, i + grid.spec_cols()) == cell_row(grid, i) + 1,
        offset_y(grid, i + grid.spec_cols()) == offset_y(grid, i) + grid.spec_row_height()
            + grid.spec_gap().y,
{
    let cols = grid.spec_cols() as int;
    let pitch = grid.spec_row_height() + grid.spec_gap().y;
    lemma_fundamental_div_mod(i, cols);
    lemma_mod_pos_bound(i, cols);
    assert((i / cols + 1) * cols + i % cols == i + cols) by (nonlinear_arith)
        requires
            i == cols * (i / cols) + (i % cols),
    ;
    vstd::arithmetic::div_mod::lemma_fundamental_div_mod_converse(
        i + cols,
        cols,
        i / cols + 1,
        i % cols,
    );
    assert((i / cols + 1) * pitch == (i / cols) * pitch + pitch) by (nonlinear_arith);
}

/// The rectangles of all children, in their order.
pub open spec fn cell_rects(grid: Grid, sizes: Seq<Vec2>, avail: Vec2, origin: Vec2) -> Seq<Rect> {
    Seq::new(sizes.len(), |i: int| cell_rect(grid, sizes, avail, origin, i))
}

/// Lays `children` out in the cells of `grid`, row by row, inside `avail`
/// and from `content_origin` on, by their measured heights. Each child is
/// put at its rectangle; the size that the container reports for its
/// content is returned.
pub fn compute<W: Widget>(
    grid: Grid,
    children: &mut Vec<Node<W>>,
    avail: Vec2,
    content_origin: Vec2,
) -> (size: Vec2)
    ensures
        Node::views(final(children)@) == put(
            Node::views(old(children)@),
            cell_rects(grid, sizes_of(Node::views(old(children)@)), avail, content_origin),
        ),
        size == container_size(grid, sizes_of(Node::views(old(children)@)), avail),
{
    let sizes = cached_sizes(children);
    let (rects, size) = place(grid, &sizes, avail, content_origin);
    assert(rects@ =~= cell_rects(grid, sizes@, avail, content_origin));
    set_rects(children, &rects);
    size
}

} // verus!
