//! Block layout: children stacked from top to bottom.

use vstd::prelude::*;
use crate::layout::node::{cached_sizes, set_rects, Node};
use crate::layout::rect::Rect;
use crate::layout::tree::{put, sizes_of};
use crate::units::{max_int, saturate, to_unit, Vec2};
use crate::widgets::base::Widget;

verus! {

/// The heights of the first `n` children added up.
pub open spec fn sum_height(sizes: Seq<Vec2>, n: int) -> int
    decreases n,
{
    if n <= 0 {
        0
    } else {
        sum_height(sizes, n - 1) + sizes[n - 1].y
    }
}

/// The largest width among the first `n` children, and at least zero.
pub open spec fn max_width(sizes: Seq<Vec2>, n: int) -> int
    decreases n,
{
    if n <= 0 {
        0
    } else {
        max_int(max_width(sizes, n - 1), sizes[n - 1].x as int)
    }
}

/// The rectangle of child `i`: at the container's left edge, below the
/// children before it, with its measured size.
pub open spec fn block_rect(sizes: Seq<Vec2>, origin: Vec2, i: int) -> Rect {
    Rect {
        origin: Vec2 { x: origin.x, y: saturate(origin.y + sum_height(sizes, i)) as i32 },
        size: sizes[i],
    }
}

/// The size that the container reports for its content: as wide as its
/// widest child, as high as all of them together.
pub open spec fn container_size(sizes: Seq<Vec2>) -> Vec2 {
    Vec2 {
        x: max_width(sizes, sizes.len() as int) as i32,
        y: saturate(sum_height(sizes, sizes.len() as int)) as i32,
    }
}

/// The sums over a prefix stay within what so many children can add up to.
pub proof fn lemma_stack_bounded(sizes: Seq<Vec2>, n: int)
    requires
        0 <= n <= sizes.len(),
    ensures
        -n * 0x8000_0000 <= sum_height(sizes, n) <= n * 0x8000_0000,
        0 <= max_width(sizes, n) <= 0x7fff_ffff,
    decreases n,
{
    if n > 0 {
        lemma_stack_bounded(sizes, n - 1);
    }
}

/// Stacks children of the measured `sizes` from `origin` downward: the
/// rectangle of each, and the size that the container reports for its
/// content.
pub fn place(sizes: &Vec<Vec2>, origin: Vec2) -> (placed: (Vec<Rect>, Vec2))
    ensures
        placed.0@.len() == sizes@.len(),
        forall|i: int|
            0 <= i < sizes@.len() ==> #[trigger] placed.0@[i] == block_rect(sizes@, origin, i),
        placed.1 == container_size(sizes@),
{
    let n = sizes.len();
    let mut rects: Vec<Rect> = Vec::new();
    let mut y: i128 = 0;
    let mut widest: i32 = 0;
    let mut i: usize = 0;
    while i < n
        invariant
            i <= n,
            n == sizes@.len(),
            y == sum_height(sizes@, i as int),
            widest == max_width(sizes@, i as int),
            rects@.len() == i,
            forall|k: int| 0 <= k < i ==> #[trigger] rects@[k] == block_rect(sizes@, origin, k),
        decreases n - i,
    {
        proof {
            lemma_stack_bounded(sizes@, i as int);
            lemma_stack_bounded(sizes@, i + 1);
        }
        let size = sizes[i];
        rects.push(Rect { origin: Vec2 { x: origin.x, y: to_unit(origin.y as i128 + y) }, size });
        y = y + size.y as i128;
        if size.x > widest {
            widest = size.x;
        }
        i += 1;
    }
    (rects, Vec2 { x: widest, y: to_unit(y) })
}


/// The rectangles of all children, in their order.
pub open spec fn block_rects(sizes: Seq<Vec2>, origin: Vec2) -> Seq<Rect> {
    Seq::new(sizes.len(), |i: int| block_rect(sizes, origin, i))
}

/// Stacks `children` from `content_origin` downward, each with its
/// measured size. Each child is put at its rectangle; the size that the
/// container reports for its content is returned.
pub fn compute<W: Widget>(children: &mut Vec<Node<W>>, content_origin: Vec2) -> (size: Vec2)
    ensures
        Node::views(final(children)@) == put(
            Node::views(old(children)@),
            block_rects(sizes_of(Node::views(old(children)@)), content_origin),
        ),
        size == container_size(sizes_of(Node::views(old(children)@))),
{
    let sizes = cached_sizes(children);
    let (rects, size) = place(&sizes, content_origin);
    assert(rects@ =~= block_rects(sizes@, content_origin));
    set_rects(children, &rects);
    size
}

} // verus!
