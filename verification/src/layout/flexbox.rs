//! Flex layout: children in one row or one column.

use vstd::prelude::*;
use crate::layout::node::{set_rects, Node};
use crate::layout::rect::Rect;
use crate::layout::tree::{put, restyled, Tree};
use crate::style::properties::{Align, Flex, FlexDir, Justify};
use crate::units::{
    half, lemma_product_bounded, lemma_share_bounded, max_int, saturate, to_unit, Vec2,
};
use crate::widgets::base::Widget;

verus! {

/// What the flex layout reads of one child: its measured size and the
/// share of the free space that it takes.
#[derive(Copy, Clone, Debug, PartialEq, Eq, Structural)]
pub struct FlexItem {
    pub size: Vec2,
    pub grow: u32,
}

/// The component of `v` along the main axis.
pub open spec fn main_of(dir: FlexDir, v: Vec2) -> int {
    match dir {
        FlexDir::Row => v.x as int,
        FlexDir::Column => v.y as int,
    }
}

/// The component of `v` along the cross axis.
pub open spec fn cross_of(dir: FlexDir, v: Vec2) -> int {
    match dir {
        FlexDir::Row => v.y as int,
        FlexDir::Column => v.x as int,
    }
}

/// A main and a cross component put back in `x`, `y` order.
pub open spec fn on_axes(dir: FlexDir, main: int, cross: int) -> Vec2 {
    match dir {
        FlexDir::Row => Vec2 { x: saturate(main) as i32, y: saturate(cross) as i32 },
        FlexDir::Column => Vec2 { x: saturate(cross) as i32, y: saturate(main) as i32 },
    }
}

/// The main sizes of the first `n` items added up.
pub open spec fn sum_main(dir: FlexDir, items: Seq<FlexItem>, n: int) -> int
    decreases n,
{
    if n <= 0 {
        0
    } else {
        sum_main(dir, items, n - 1) + main_of(dir, items[n - 1].size)
    }
}

/// The grow factors of the first `n` items added up.
pub open spec fn sum_grow(items: Seq<FlexItem>, n: int) -> int
    decreases n,
{
    if n <= 0 {
        0
    } else {
        sum_grow(items, n - 1) + items[n - 1].grow
    }
}

/// The largest cross size among the first `n` items, and at least zero.
pub open spec fn max_cross(dir: FlexDir, items: Seq<FlexItem>, n: int) -> int
    decreases n,
{
    if n <= 0 {
        0
    } else {
        max_int(max_cross(dir, items, n - 1), cross_of(dir, items[n - 1].size))
    }
}

/// The number of gaps between `n` children.
pub open spec fn gap_count(n: int) -> int {
    if n >= 1 {
        n - 1
    } else {
        0
    }
}

/// The main extent that the children need as measured: their main sizes
/// and the declared gap between each two neighbours.
pub open spec fn content_main(flex: Flex, items: Seq<FlexItem>) -> int {
    sum_main(flex.dir, items, items.len() as int) + gap_count(items.len() as int) * flex.gap
}

/// The main extent that is left over, never negative.
pub open spec fn free_space(flex: Flex, items: Seq<FlexItem>, avail: Vec2) -> int {
    max_int(0, main_of(flex.dir, avail) - content_main(flex, items))
}

/// Some child takes a share of the free space.
pub open spec fn has_grow(items: Seq<FlexItem>) -> bool {
    sum_grow(items, items.len() as int) > 0
}

/// The free space that one unit of grow factor stands for.
pub open spec fn grow_unit(flex: Flex, items: Seq<FlexItem>, avail: Vec2) -> int {
    if has_grow(items) {
        free_space(flex, items, avail) / sum_grow(items, items.len() as int)
    } else {
        0
    }
}

/// The offset of the first child along the main axis. Where a child grows,
/// growth has taken the free space and `justify` has nothing to place.
pub open spec fn lead_offset(flex: Flex, items: Seq<FlexItem>, avail: Vec2) -> int {
    if has_grow(items) {
        0
    } else {
        match flex.justify {
            Justify::Center => free_space(flex, items, avail) / 2,
            Justify::End => free_space(flex, items, avail),
            _ => 0,
        }
    }
}

/// The gap that is laid between two neighbours: the free space in equal
/// parts where `justify` spreads two or more children that do not grow,
/// the declared gap otherwise.
pub open spec fn step_gap(flex: Flex, items: Seq<FlexItem>, avail: Vec2) -> int {
    if !has_grow(items) && flex.justify == Justify::SpaceBetween && items.len() > 1 {
        free_space(flex, items, avail) / (items.len() - 1)
    } else {
        flex.gap as int
    }
}

/// The main size that child `i` is given: its measured one and its share
/// of the free space.
pub open spec fn child_main(flex: Flex, items: Seq<FlexItem>, avail: Vec2, i: int) -> int {
    main_of(flex.dir, items[i].size) + items[i].grow * grow_unit(flex, items, avail)
}

/// The distance from the content origin to child `i` along the main axis:
/// the lead offset, and for every child before it that child's main size
/// and one gap.
pub open spec fn cursor(flex: Flex, items: Seq<FlexItem>, avail: Vec2, i: int) -> int {
    lead_offset(flex, items, avail) + sum_main(flex.dir, items, i) + grow_unit(flex, items, avail)
        * sum_grow(items, i) + i * step_gap(flex, items, avail)
}

/// The cross extent that the container reports: all that is available
/// where the children are stretched or the container fills the cross axis,
/// the largest cross size of a child otherwise.
pub open spec fn container_cross(flex: Flex, items: Seq<FlexItem>, avail: Vec2) -> int {
    if flex.align == Align::Stretch || flex.fill_cross {
        cross_of(flex.dir, avail)
    } else {
        max_cross(flex.dir, items, items.len() as int)
    }
}

/// The cross size that child `i` is given.
pub open spec fn child_cross(flex: Flex, items: Seq<FlexItem>, avail: Vec2, i: int) -> int {
    if flex.align == Align::Stretch {
        cross_of(flex.dir, avail)
    } else {
        cross_of(flex.dir, items[i].size)
    }
}

/// The distance from the content origin to child `i` along the cross
/// axis: a centred child stands in the middle of the available cross
/// extent, an end-aligned one at its far edge.
pub open spec fn cross_offset(flex: Flex, items: Seq<FlexItem>, avail: Vec2, i: int) -> int {
    match flex.align {
        Align::Center => half(cross_of(flex.dir, avail) - child_cross(flex, items, avail, i)),
        Align::End => cross_of(flex.dir, avail) - child_cross(flex, items, avail, i),
        _ => 0,
    }
}

/// The rectangle of child `i`.
pub open spec fn child_rect(
    flex: Flex,
    items: Seq<FlexItem>,
    avail: Vec2,
    origin: Vec2,
    i: int,
) -> Rect {
    Rect {
        origin: on_axes(
            flex.dir,
            main_of(flex.dir, origin) + cursor(flex, items, avail, i),
            cross_of(flex.dir, origin) + cross_offset(flex, items, avail, i),
        ),
        size: on_axes(
            flex.dir,
            child_main(flex, items, avail, i),
            child_cross(flex, items, avail, i),
        ),
    }
}

/// The main extent that the children cover from the first to the last:
/// their main sizes as given, growth included, and the declared gaps.
pub open spec fn consumed_main(flex: Flex, items: Seq<FlexItem>, avail: Vec2) -> int {
    content_main(flex, items) + grow_unit(flex, items, avail) * sum_grow(
        items,
        items.len() as int,
    )
}

/// The size that the container reports for its content. On the main axis
/// that is what the children cover where they start at the content origin,
/// and all that is available where `justify` places them by an offset.
pub open spec fn container_size(flex: Flex, items: Seq<FlexItem>, avail: Vec2) -> Vec2 {
    on_axes(
        flex.dir,
        if flex.justify == Justify::Start {
            consumed_main(flex, items, avail)
        } else {
            main_of(flex.dir, avail)
        },
        container_cross(flex, items, avail),
    )
}

/// The sums over a prefix stay within what so many items can add up to.
pub proof fn lemma_sums_bounded(dir: FlexDir, items: Seq<FlexItem>, n: int)
    requires
        0 <= n <= items.len(),
    ensures
        -n * 0x8000_0000 <= sum_main(dir, items, n) <= n * 0x8000_0000,
        0 <= sum_grow(items, n) <= n * 0x1_0000_0000,
        0 <= max_cross(dir, items, n) <= 0x7fff_ffff,
    decreases n,
{
    if n > 0 {
        lemma_sums_bounded(dir, items, n - 1);
    }
}

/// The grow factors of a prefix add up to no more than those of a longer one.
pub proof fn lemma_sum_grow_monotone(items: Seq<FlexItem>, i: int, j: int)
    requires
        0 <= i <= j <= items.len(),
    ensures
        sum_grow(items, i) <= sum_grow(items, j),
    decreases j - i,
{
    if i < j {
        lemma_sum_grow_monotone(items, i, j - 1);
    }
}

/// The quantities that every child's rectangle is computed from.
struct FlexFrame {
    unit: i128,
    lead: i128,
    step: i128,
    cross: i128,
    main: i128,
}

impl FlexFrame {
    spec fn describes(self, flex: Flex, items: Seq<FlexItem>, avail: Vec2) -> bool {
        &&& self.unit == grow_unit(flex, items, avail)
        &&& self.lead == lead_offset(flex, items, avail)
        &&& self.step == step_gap(flex, items, avail)
        &&& self.cross == container_cross(flex, items, avail)
        &&& self.main == if flex.justify == Justify::Start {
            consumed_main(flex, items, avail)
        } else {
            main_of(flex.dir, avail)
        }
    }
}

/// The free space is bounded, and so is every share of it.
proof fn lemma_frame_bounded(flex: Flex, items: Seq<FlexItem>, avail: Vec2)
    requires
        items.len() <= usize::MAX,
    ensures
        -0x1_0000_0000_0000_0000_0000_0000 <= content_main(flex, items)
            <= 0x1_0000_0000_0000_0000_0000_0000,
        0 <= free_space(flex, items, avail) <= 0x2_0000_0000_0000_0000_0000_0000,
        0 <= grow_unit(flex, items, avail) <= free_space(flex, items, avail),
        0 <= lead_offset(flex, items, avail) <= free_space(flex, items, avail),
        -0x8000_0000 <= step_gap(flex, items, avail) <= 0x2_0000_0000_0000_0000_0000_0000,
        forall|i: int|
            0 <= i <= items.len() ==> 0 <= #[trigger] (grow_unit(flex, items, avail) * sum_grow(
                items,
                i,
            )) <= free_space(flex, items, avail),
        forall|i: int|
            0 <= i < items.len() ==> 0 <= #[trigger] (items[i].grow * grow_unit(
                flex,
                items,
                avail,
            )) <= free_space(flex, items, avail),
        forall|i: int|
            0 <= i < items.len() ==> -0x8000_0000_0000_0000_0000_0000 <= #[trigger] (i * step_gap(
                flex,
                items,
                avail,
            )) <= 0x2_0000_0000_0000_0000_0000_0000,
{
    let n = items.len() as int;
    let free = free_space(flex, items, avail);
    let total = sum_grow(items, n);
    let unit = grow_unit(flex, items, avail);
    let step = step_gap(flex, items, avail);
    lemma_sums_bounded(flex.dir, items, n);
    lemma_product_bounded(gap_count(n), 0x1_0000_0000_0000_0000, flex.gap as int, 0x8000_0000);
    if has_grow(items) {
        lemma_share_bounded(free, total, total);
    }
    lemma_share_bounded(free, 2, 1);
    if n > 1 {
        lemma_share_bounded(free, n - 1, n - 1);
    }
    assert forall|i: int| 0 <= i <= items.len() implies 0 <= #[trigger] (unit * sum_grow(
        items,
        i,
    )) <= free by {
        lemma_sums_bounded(flex.dir, items, i);
        if has_grow(items) {
            lemma_sum_grow_monotone(items, i, n);
            lemma_share_bounded(free, total, sum_grow(items, i));
        } else {
            assert(unit * sum_grow(items, i) == 0) by (nonlinear_arith)
                requires
                    unit == 0,
            ;
        }
    }
    assert forall|i: int| 0 <= i < items.len() implies 0 <= #[trigger] (items[i].grow * unit)
        <= free by {
        if has_grow(items) {
            lemma_sums_bounded(flex.dir, items, i);
            lemma_sum_grow_monotone(items, i + 1, n);
            lemma_share_bounded(free, total, items[i].grow as int);
        } else {
            assert(items[i].grow * unit == 0) by (nonlinear_arith)
                requires
                    unit == 0,
            ;
        }
    }
    assert forall|i: int| 0 <= i < items.len() implies -0x8000_0000_0000_0000_0000_0000
        <= #[trigger] (i * step) <= 0x2_0000_0000_0000_0000_0000_0000 by {
        if !has_grow(items) && flex.justify == Justify::SpaceBetween && n > 1 {
            lemma_share_bounded(free, n - 1, i);
        } else {
            lemma_product_bounded(i, 0x1_0000_0000_0000_0000, step, 0x8000_0000);
        }
    }
}

fn frame(flex: Flex, items: &Vec<FlexItem>, avail: Vec2) -> (f: FlexFrame)
    ensures
        f.describes(flex, items@, avail),
{
    let n = items.len();
    let is_row = flex.dir == FlexDir::Row;
    let mut sum: i128 = 0;
    let mut total_grow: i128 = 0;
    let mut widest: i128 = 0;
    let mut i: usize = 0;
    while i < n
        invariant
            i <= n,
            n == items@.len(),
            is_row == (flex.dir == FlexDir::Row),
            sum == sum_main(flex.dir, items@, i as int),
            total_grow == sum_grow(items@, i as int),
            widest == max_cross(flex.dir, items@, i as int),
        decreases n - i,
    {
        proof {
            lemma_sums_bounded(flex.dir, items@, i as int);
            lemma_sums_bounded(flex.dir, items@, i + 1);
        }
        let size = items[i].size;
        let main = if is_row {
            size.x
        } else {
            size.y
        };
        let cross = if is_row {
            size.y
        } else {
            size.x
        };
        sum = sum + main as i128;
        total_grow = total_grow + items[i].grow as i128;
        if cross as i128 > widest {
            widest = cross as i128;
        }
        i += 1;
    }
    proof {
        lemma_frame_bounded(flex, items@, avail);
        lemma_sums_bounded(flex.dir, items@, n as int);
        lemma_product_bounded(
            gap_count(n as int),
            0x1_0000_0000_0000_0000,
            flex.gap as int,
            0x8000_0000,
        );
    }
    let gaps: i128 = if n >= 1 {
        (n - 1) as i128
    } else {
        0
    };
    let content = sum + gaps * flex.gap as i128;
    let main_avail: i128 = if is_row {
        avail.x as i128
    } else {
        avail.y as i128
    };
    let cross_avail: i128 = if is_row {
        avail.y as i128
    } else {
        avail.x as i128
    };
    let free: i128 = if main_avail - content > 0 {
        main_avail - content
    } else {
        0
    };
    let growing = total_grow > 0;
    let unit: i128 = if growing {
        free / total_grow
    } else {
        0
    };
    let lead: i128 = if growing {
        0
    } else {
        match flex.justify {
            Justify::Center => free / 2,
            Justify::End => free,
            _ => 0,
        }
    };
    let step: i128 = if !growing && flex.justify == Justify::SpaceBetween && n > 1 {
        free / gaps
    } else {
        flex.gap as i128
    };
    let cross: i128 = if flex.align == Align::Stretch || flex.fill_cross {
        cross_avail
    } else {
        widest
    };
    proof {
        assert(0 <= grow_unit(flex, items@, avail) * sum_grow(items@, n as int) <= free_space(
            flex,
            items@,
            avail,
        ));
    }
    let main: i128 = if flex.justify == Justify::Start {
        content + unit * total_grow
    } else {
        main_avail
    };
    FlexFrame { unit, lead, step, cross, main }
}

/// Lays `items` out in one row or one column inside `avail`, from
/// `origin` on: the rectangle of each, and the size that the container
/// reports for its content.
pub fn place(flex: Flex, items: &Vec<FlexItem>, avail: Vec2, origin: Vec2) -> (placed: (
    Vec<Rect>,
    Vec2,
))
    ensures
        placed.0@.len() == items@.len(),
        forall|i: int|
            0 <= i < items@.len() ==> #[trigger] placed.0@[i] == child_rect(
                flex,
                items@,
                avail,
                origin,
                i,
            ),
        placed.1 == container_size(flex, items@, avail),
{
    let f = frame(flex, items, avail);
    let n = items.len();
    let is_row = flex.dir == FlexDir::Row;
    let cross_avail: i128 = if is_row {
        avail.y as i128
    } else {
        avail.x as i128
    };
    let origin_main: i128 = if is_row {
        origin.x as i128
    } else {
        origin.y as i128
    };
    let origin_cross: i128 = if is_row {
        origin.y as i128
    } else {
        origin.x as i128
    };
    let mut rects: Vec<Rect> = Vec::new();
    let mut before_main: i128 = 0;
    let mut before_grow: i128 = 0;
    let mut i: usize = 0;
    proof {
        lemma_frame_bounded(flex, items@, avail);
    }
    while i < n
        invariant
            i <= n,
            n == items@.len(),
            is_row == (flex.dir == FlexDir::Row),
            f.describes(flex, items@, avail),
            cross_avail == cross_of(flex.dir, avail),
            origin_main == main_of(flex.dir, origin),
            origin_cross == cross_of(flex.dir, origin),
            before_main == sum_main(flex.dir, items@, i as int),
            before_grow == sum_grow(items@, i as int),
            rects@.len() == i,
            forall|k: int|
                0 <= k < i ==> #[trigger] rects@[k] == child_rect(flex, items@, avail, origin, k),
        decreases n - i,
    {
        proof {
            lemma_frame_bounded(flex, items@, avail);
            lemma_sums_bounded(flex.dir, items@, i as int);
            lemma_sums_bounded(flex.dir, items@, i + 1);
            lemma_sums_bounded(flex.dir, items@, n as int);
            assert(0 <= grow_unit(flex, items@, avail) * sum_grow(items@, i as int) <= free_space(
                flex,
                items@,
                avail,
            ));
            assert(0 <= items@[i as int].grow * grow_unit(flex, items@, avail) <= free_space(
                flex,
                items@,
                avail,
            ));
            assert(-0x8000_0000_0000_0000_0000_0000 <= (i as int) * step_gap(flex, items@, avail)
                <= 0x2_0000_0000_0000_0000_0000_0000);
        }
        let size = items[i].size;
        let measured_main: i128 = if is_row {
            size.x as i128
        } else {
            size.y as i128
        };
        let measured_cross: i128 = if is_row {
            size.y as i128
        } else {
            size.x as i128
        };
        let at: i128 = f.lead + before_main + f.unit * before_grow + (i as i128) * f.step;
        let given_main: i128 = measured_main + (items[i].grow as i128) * f.unit;
        let given_cross: i128 = if flex.align == Align::Stretch {
            cross_avail
        } else {
            measured_cross
        };
        let across: i128 = match flex.align {
            Align::Center => (cross_avail - given_cross) / 2,
            Align::End => cross_avail - given_cross,
            _ => 0,
        };
        let main_pos = to_unit(origin_main + at);
        let cross_pos = to_unit(origin_cross + across);
        let main_len = to_unit(given_main);
        let cross_len = to_unit(given_cross);
        let rect = if is_row {
            Rect {
                origin: Vec2 { x: main_pos, y: cross_pos },
                size: Vec2 { x: main_len, y: cross_len },
            }
        } else {
            Rect {
                origin: Vec2 { x: cross_pos, y: main_pos },
                size: Vec2 { x: cross_len, y: main_len },
            }
        };
        proof {
            assert(at == cursor(flex, items@, avail, i as int));
            assert(given_main == child_main(flex, items@, avail, i as int));
            assert(given_cross == child_cross(flex, items@, avail, i as int));
            assert(across == cross_offset(flex, items@, avail, i as int));
            assert(rect == child_rect(flex, items@, avail, origin, i as int));
        }
        rects.push(rect);
        before_main = before_main + measured_main;
        before_grow = before_grow + items[i].grow as i128;
        i += 1;
    }
    let reported = if is_row {
        Vec2 { x: to_unit(f.main), y: to_unit(f.cross) }
    } else {
        Vec2 { x: to_unit(f.cross), y: to_unit(f.main) }
    };
    (rects, reported)
}


/// The children follow one another along the main axis: the first begins
/// at the lead offset, and each other one where the one before it ends, one
/// gap further.
pub proof fn lemma_cursor_steps(flex: Flex, items: Seq<FlexItem>, avail: Vec2, i: int)
    requires
        0 <= i < items.len(),
    ensures
        cursor(flex, items, avail, 0) == lead_offset(flex, items, avail),
        cursor(flex, items, avail, i + 1) == cursor(flex, items, avail, i) + child_main(
            flex,
            items,
            avail,
            i,
        ) + step_gap(flex, items, avail),
{
    let unit = grow_unit(flex, items, avail);
    let step = step_gap(flex, items, avail);
    assert(unit * sum_grow(items, 0) == 0) by (nonlinear_arith)
        requires
            sum_grow(items, 0) == 0,
    ;
    assert(0 * step == 0);
    assert(unit * sum_grow(items, i + 1) == unit * sum_grow(items, i) + items[i].grow * unit)
        by (nonlinear_arith)
        requires
            sum_grow(items, i + 1) == sum_grow(items, i) + items[i].grow,
    ;
    assert((i + 1) * step == i * step + step) by (nonlinear_arith);
}

/// Growth never takes more than there is: where the children fit as
/// measured, they still fit as grown, and what rounding leaves over is
/// less than one unit for each unit of grow factor.
pub proof fn lemma_growth_fits(flex: Flex, items: Seq<FlexItem>, avail: Vec2)
    requires
        has_grow(items),
        content_main(flex, items) <= main_of(flex.dir, avail),
    ensures
        consumed_main(flex, items, avail) <= main_of(flex.dir, avail),
        main_of(flex.dir, avail) - consumed_main(flex, items, avail) < sum_grow(
            items,
            items.len() as int,
        ),
{
    let free = free_space(flex, items, avail);
    let total = sum_grow(items, items.len() as int);
    let unit = grow_unit(flex, items, avail);
    vstd::arithmetic::div_mod::lemma_fundamental_div_mod(free, total);
    vstd::arithmetic::div_mod::lemma_mod_pos_bound(free, total);
    assert(unit * total == total * unit) by (nonlinear_arith);
}

/// Growth takes the free space in proportion to the grow factors. Of three
/// children with the factors 0, 1 and 1, the first keeps its measured main
/// size and each of the others gets half of the free space on top of its
/// own: half of what is left of the available main extent after the three
/// main sizes and the two gaps, and nothing where nothing is left.
pub proof fn lemma_grow_distribution(flex: Flex, a: Vec2, b: Vec2, c: Vec2, avail: Vec2)
    ensures
        ({
            let items = seq![
                FlexItem { size: a, grow: 0 },
                FlexItem { size: b, grow: 1 },
                FlexItem { size: c, grow: 1 },
            ];
            let extra = max_int(
                0,
                main_of(flex.dir, avail) - main_of(flex.dir, a) - main_of(flex.dir, b) - main_of(
                    flex.dir,
                    c,
                ) - 2 * flex.gap,
            ) / 2;
            &&& child_main(flex, items, avail, 0) == main_of(flex.dir, a)
            &&& child_main(flex, items, avail, 1) == main_of(flex.dir, b) + extra
            &&& child_main(flex, items, avail, 2) == main_of(flex.dir, c) + extra
        }),
{
    let items = seq![
        FlexItem { size: a, grow: 0 },
        FlexItem { size: b, grow: 1 },
        FlexItem { size: c, grow: 1 },
    ];
    reveal_with_fuel(sum_main, 4);
    reveal_with_fuel(sum_grow, 4);
    assert(sum_grow(items, 3) == 2);
    assert(sum_main(flex.dir, items, 3) == main_of(flex.dir, a) + main_of(flex.dir, b) + main_of(
        flex.dir,
        c,
    ));
    let unit = grow_unit(flex, items, avail);
    assert(0 * unit == 0);
    assert(1 * unit == unit);
}

/// A child that does not grow keeps its measured main size, whatever the
/// others do.
pub proof fn lemma_no_grow_keeps_size(flex: Flex, items: Seq<FlexItem>, avail: Vec2, i: int)
    requires
        0 <= i < items.len(),
        items[i].grow == 0,
    ensures
        child_main(flex, items, avail, i) == main_of(flex.dir, items[i].size),
{
    assert(0 * grow_unit(flex, items, avail) == 0);
}

/// Spreading needs two children: with one child or none, `SpaceBetween`
/// divides nothing and the gap is the declared one.
pub proof fn lemma_space_between_alone(flex: Flex, items: Seq<FlexItem>, avail: Vec2)
    requires
        flex.justify == Justify::SpaceBetween,
        items.len() <= 1,
    ensures
        step_gap(flex, items, avail) == flex.gap,
        lead_offset(flex, items, avail) == 0,
{
}

/// Spread children that do not grow stand apart by the free space in equal
/// parts: each begins where the one before it ends, one such part further.
pub proof fn lemma_space_between_steps(flex: Flex, items: Seq<FlexItem>, avail: Vec2, i: int)
    requires
        flex.justify == Justify::SpaceBetween,
        !has_grow(items),
        items.len() > 1,
        0 <= i < items.len() - 1,
    ensures
        cursor(flex, items, avail, 0) == 0,
        cursor(flex, items, avail, i + 1) == cursor(flex, items, avail, i) + main_of(
            flex.dir,
            items[i].size,
        ) + free_space(flex, items, avail) / (items.len() - 1),
{
    let unit = grow_unit(flex, items, avail);
    let step = step_gap(flex, items, avail);
    assert(unit == 0);
    assert(unit * sum_grow(items, i) == 0) by (nonlinear_arith)
        requires
            unit == 0,
    ;
    assert(unit * sum_grow(items, i + 1) == 0) by (nonlinear_arith)
        requires
            unit == 0,
    ;
    assert(unit * sum_grow(items, 0) == 0) by (nonlinear_arith)
        requires
            unit == 0,
    ;
    assert((i + 1) * step == i * step + step) by (nonlinear_arith);
    assert(0 * step == 0);
}

/// What the flex layout reads of `trees`: of each its measured size and
/// the grow factor of its style.
pub open spec fn flex_items<W: Widget>(trees: Seq<Tree<W>>) -> Seq<FlexItem> {
    Seq::new(
        trees.len(),
        |i: int| FlexItem { size: trees[i].cached_size, grow: trees[i].style.flex_grow },
    )
}

/// The rectangles of all children, in their order.
pub open spec fn child_rects(flex: Flex, items: Seq<FlexItem>, avail: Vec2, origin: Vec2) -> Seq<
    Rect,
> {
    Seq::new(items.len(), |i: int| child_rect(flex, items, avail, origin, i))
}

/// Lays `children` out in one row or one column inside `avail`, from
/// `content_origin` on. Each child's widget is asked for its style, which
/// the child keeps; by the measured sizes and the grow factors of those
/// styles each child is put at its rectangle. The size that the container
/// reports for its content is returned.
pub fn compute<W: Widget>(
    flex_style: Flex,
    children: &mut Vec<Node<W>>,
    avail: Vec2,
    content_origin: Vec2,
) -> (size: Vec2)
    ensures
        Node::views(final(children)@) == put(
            restyled(Node::views(old(children)@), Node::views(final(children)@)),
            child_rects(
                flex_style,
                flex_items(Node::views(final(children)@)),
                avail,
                content_origin,
            ),
        ),
        size == container_size(flex_style, flex_items(Node::views(final(children)@)), avail),
        forall|i: int|
            0 <= i < old(children)@.len() ==> call_ensures(
                W::style,
                (&old(children)@[i]@.widget,),
                #[trigger] final(children)@[i]@.style,
            ),
{
    let n = children.len();
    let mut items: Vec<FlexItem> = Vec::new();
    let mut i: usize = 0;
    while i < n
        invariant
            i <= n,
            n == children@.len(),
            n == old(children)@.len(),
            items@.len() == i,
            forall|k: int|
                0 <= k < i ==> #[trigger] items@[k] == (FlexItem {
                    size: children@[k]@.cached_size,
                    grow: children@[k]@.style.flex_grow,
                }),
            forall|k: int|
                0 <= k < i ==> (#[trigger] children@[k])@ == (Tree {
                    style: children@[k]@.style,
                    ..old(children)@[k]@
                }),
            forall|k: int| i <= k < n ==> children@[k] == old(children)@[k],
            forall|k: int|
                0 <= k < i ==> call_ensures(
                    W::style,
                    (&old(children)@[k]@.widget,),
                    #[trigger] children@[k]@.style,
                ),
        decreases n - i,
    {
        let child = &mut children[i];
        proof {
            child.lemma_view();
        }
        let style = child.widget.style();
        child.last_style = style;
        let item = FlexItem { size: child.cached_size, grow: style.flex_grow };
        proof {
            child.lemma_view();
            assert(child@.children =~= old(children)@[i as int]@.children);
        }
        items.push(item);
        i += 1;
    }
    let ghost styled = Node::views(children@);
    proof {
        Node::lemma_views(children@);
        Node::lemma_views(old(children)@);
        assert(items@ =~= flex_items(styled));
        assert(styled =~= restyled(Node::views(old(children)@), styled));
    }
    let (rects, size) = place(flex_style, &items, avail, content_origin);
    assert(rects@ =~= child_rects(flex_style, items@, avail, content_origin));
    set_rects(children, &rects);
    proof {
        let placed = Node::views(children@);
        Node::lemma_views(children@);
        assert(flex_items(placed) =~= flex_items(styled));
        assert(restyled(Node::views(old(children)@), placed) =~= styled);
        assert forall|i: int| 0 <= i < n implies call_ensures(
            W::style,
            (&old(children)@[i]@.widget,),
            #[trigger] children@[i]@.style,
        ) by {
            assert(placed[i].style == styled[i].style);
        }
    }
    size
}

} // verus!
