use luna::layout::block;
use luna::layout::flexbox::{place, FlexItem};
use luna::layout::grid;
use luna::layout::rect::Rect;
use luna::style::properties::{Align, Flex, FlexDir, Grid, Justify};
use luna::units::Vec2;

fn rect(x: i32, y: i32, w: i32, h: i32) -> Rect {
    Rect::new(Vec2::new(x, y), Vec2::new(w, h))
}

fn item(w: i32, h: i32, grow: u32) -> FlexItem {
    FlexItem { size: Vec2::new(w, h), grow }
}

fn flex(dir: FlexDir, justify: Justify, align: Align, gap: i32, fill_cross: bool) -> Flex {
    Flex { dir, justify, align, gap, fill_cross }
}

#[test]
fn growth_shares_the_free_space_by_factor() {
    let f = flex(FlexDir::Row, Justify::Start, Align::Start, 10, false);
    let items = vec![item(40, 10, 0), item(50, 10, 1), item(60, 10, 1)];
    let (rects, size) = place(f, &items, Vec2::new(300, 100), Vec2::new(0, 0));
    assert_eq!(rects, vec![rect(0, 0, 40, 10), rect(50, 0, 115, 10), rect(175, 0, 125, 10)]);
    assert_eq!(size, Vec2::new(300, 10));
}

#[test]
fn growth_rounds_each_share_down() {
    let f = flex(FlexDir::Row, Justify::Start, Align::Start, 10, false);
    let items = vec![item(40, 10, 0), item(50, 10, 1), item(60, 10, 1)];
    let (rects, size) = place(f, &items, Vec2::new(301, 100), Vec2::new(0, 0));
    assert_eq!(rects[1].size.x, 115);
    assert_eq!(rects[2].size.x, 125);
    assert_eq!(size, Vec2::new(300, 10));
}

#[test]
fn growth_by_unequal_factors() {
    let f = flex(FlexDir::Row, Justify::Start, Align::Start, 0, false);
    let items = vec![item(10, 5, 1), item(10, 5, 3)];
    let (rects, _) = place(f, &items, Vec2::new(100, 50), Vec2::new(0, 0));
    assert_eq!(rects, vec![rect(0, 0, 30, 5), rect(30, 0, 70, 5)]);
}

#[test]
fn growth_takes_priority_over_justify() {
    let f = flex(FlexDir::Row, Justify::Center, Align::Start, 0, false);
    let items = vec![item(10, 5, 1)];
    let (rects, size) = place(f, &items, Vec2::new(100, 50), Vec2::new(0, 0));
    assert_eq!(rects, vec![rect(0, 0, 100, 5)]);
    assert_eq!(size, Vec2::new(100, 5));
}

#[test]
fn nothing_grows_when_nothing_is_free() {
    let f = flex(FlexDir::Row, Justify::Start, Align::Start, 0, false);
    let items = vec![item(80, 5, 1), item(80, 5, 1)];
    let (rects, size) = place(f, &items, Vec2::new(100, 50), Vec2::new(0, 0));
    assert_eq!(rects, vec![rect(0, 0, 80, 5), rect(80, 0, 80, 5)]);
    assert_eq!(size, Vec2::new(160, 5));
}

#[test]
fn space_between_with_one_child_keeps_the_declared_gap() {
    let f = flex(FlexDir::Row, Justify::SpaceBetween, Align::Start, 7, false);
    let items = vec![item(50, 20, 0)];
    let (rects, size) = place(f, &items, Vec2::new(300, 100), Vec2::new(0, 0));
    assert_eq!(rects, vec![rect(0, 0, 50, 20)]);
    assert_eq!(size, Vec2::new(300, 20));
}

#[test]
fn space_between_without_children() {
    let f = flex(FlexDir::Row, Justify::SpaceBetween, Align::Start, 7, false);
    let items: Vec<FlexItem> = vec![];
    let (rects, size) = place(f, &items, Vec2::new(300, 100), Vec2::new(0, 0));
    assert!(rects.is_empty());
    assert_eq!(size, Vec2::new(300, 0));
}

#[test]
fn space_between_two_children_in_a_row() {
    let f = flex(FlexDir::Row, Justify::SpaceBetween, Align::Start, 0, false);
    let items = vec![item(50, 20, 0), item(50, 20, 0)];
    let (rects, size) = place(f, &items, Vec2::new(300, 100), Vec2::new(0, 0));
    assert_eq!(rects, vec![rect(0, 0, 50, 20), rect(250, 0, 50, 20)]);
    assert_eq!(size, Vec2::new(300, 20));
}

#[test]
fn space_between_three_children() {
    let f = flex(FlexDir::Row, Justify::SpaceBetween, Align::Start, 10, false);
    let items = vec![item(20, 5, 0), item(20, 5, 0), item(20, 5, 0)];
    // content 60 + 2 * 10 = 80, free 120, 60 between each two
    let (rects, _) = place(f, &items, Vec2::new(200, 50), Vec2::new(0, 0));
    assert_eq!(rects, vec![rect(0, 0, 20, 5), rect(80, 0, 20, 5), rect(160, 0, 20, 5)]);
}

#[test]
fn center_puts_half_of_the_free_space_first() {
    let f = flex(FlexDir::Row, Justify::Center, Align::Center, 10, false);
    let items = vec![item(50, 20, 0), item(30, 10, 0)];
    let (rects, size) = place(f, &items, Vec2::new(200, 100), Vec2::new(10, 5));
    assert_eq!(rects, vec![rect(65, 45, 50, 20), rect(125, 50, 30, 10)]);
    assert_eq!(size, Vec2::new(200, 20));
}

#[test]
fn centred_children_stand_in_the_middle_of_the_available_cross_extent() {
    let f = flex(FlexDir::Row, Justify::SpaceBetween, Align::Center, 0, false);
    let items = vec![item(50, 20, 0), item(50, 20, 0)];
    let (rects, size) = place(f, &items, Vec2::new(300, 100), Vec2::new(0, 0));
    assert_eq!(rects, vec![rect(0, 40, 50, 20), rect(250, 40, 50, 20)]);
    assert_eq!(size, Vec2::new(300, 20));
}

#[test]
fn end_aligned_children_stand_at_the_far_edge_of_the_available_cross_extent() {
    let f = flex(FlexDir::Column, Justify::End, Align::End, 0, false);
    let items = vec![item(20, 50, 0), item(20, 50, 0)];
    let (rects, _) = place(f, &items, Vec2::new(100, 300), Vec2::new(0, 0));
    assert_eq!(rects, vec![rect(80, 200, 20, 50), rect(80, 250, 20, 50)]);
}

#[test]
fn end_puts_all_of_the_free_space_first() {
    let f = flex(FlexDir::Row, Justify::End, Align::End, 10, true);
    let items = vec![item(50, 20, 0), item(30, 10, 0)];
    let (rects, size) = place(f, &items, Vec2::new(200, 100), Vec2::new(0, 0));
    assert_eq!(rects, vec![rect(110, 80, 50, 20), rect(170, 90, 30, 10)]);
    assert_eq!(size, Vec2::new(200, 100));
}

#[test]
fn stretch_gives_the_available_cross_size() {
    let f = flex(FlexDir::Column, Justify::Start, Align::Stretch, 5, false);
    let items = vec![item(50, 20, 0), item(30, 10, 0)];
    let (rects, size) = place(f, &items, Vec2::new(200, 300), Vec2::new(0, 0));
    assert_eq!(rects, vec![rect(0, 0, 200, 20), rect(0, 25, 200, 10)]);
    assert_eq!(size, Vec2::new(200, 35));
}

#[test]
fn start_reports_the_largest_cross_size() {
    let f = flex(FlexDir::Row, Justify::Start, Align::Start, 0, false);
    let items = vec![item(10, 20, 0), item(10, 35, 0)];
    let (_, size) = place(f, &items, Vec2::new(200, 300), Vec2::new(0, 0));
    assert_eq!(size, Vec2::new(20, 35));
}

#[test]
fn overfull_containers_have_no_free_space() {
    let f = flex(FlexDir::Row, Justify::Center, Align::Start, 0, false);
    let items = vec![item(80, 5, 0), item(80, 5, 0)];
    let (rects, size) = place(f, &items, Vec2::new(100, 50), Vec2::new(0, 0));
    assert_eq!(rects, vec![rect(0, 0, 80, 5), rect(80, 0, 80, 5)]);
    assert_eq!(size, Vec2::new(100, 5));
}

#[test]
fn centering_rounds_toward_zero() {
    let f = flex(FlexDir::Row, Justify::Start, Align::Center, 0, true);
    let items = vec![item(10, 21, 0), item(10, 5, 0)];
    let (rects, _) = place(f, &items, Vec2::new(100, 10), Vec2::new(0, 0));
    assert_eq!(rects[0].origin.y, -5);
    assert_eq!(rects[1].origin.y, 2);
}

#[test]
fn flex_results_are_pinned_to_the_unit_range() {
    let f = flex(FlexDir::Row, Justify::Start, Align::Start, 0, false);
    let items = vec![item(i32::MAX, 1, 0), item(i32::MAX, 1, 0), item(i32::MAX, 1, 0)];
    let (rects, size) = place(f, &items, Vec2::new(10, 10), Vec2::new(5, 0));
    assert_eq!(rects[0].origin.x, 5);
    assert_eq!(rects[1].origin.x, i32::MAX);
    assert_eq!(rects[2].origin.x, i32::MAX);
    assert_eq!(size, Vec2::new(i32::MAX, 1));
}

#[test]
fn grid_places_children_row_by_row() {
    let g = Grid::new(3, 24, Vec2::new(4, 6));
    let sizes = vec![
        Vec2::new(1, 10),
        Vec2::new(1, 30),
        Vec2::new(1, 10),
        Vec2::new(1, 10),
        Vec2::new(1, 40),
    ];
    let (rects, size) = grid::place(g, &sizes, Vec2::new(308, 0), Vec2::new(10, 20));
    assert_eq!(
        rects,
        vec![
            rect(10, 20, 100, 24),
            rect(114, 20, 100, 30),
            rect(218, 20, 100, 24),
            rect(10, 50, 100, 24),
            rect(114, 50, 100, 40),
        ]
    );
    assert_eq!(size, Vec2::new(308, 70));
}

#[test]
fn grid_child_four_of_three_columns_is_in_the_second_row() {
    let g = Grid::new(3, 24, Vec2::new(4, 6));
    let sizes = vec![Vec2::new(0, 0); 5];
    let (rects, _) = grid::place(g, &sizes, Vec2::new(308, 0), Vec2::new(0, 0));
    assert_eq!(rects[4].origin, Vec2::new(104, 30));
    assert_eq!(rects[4].origin.y, g.row_height() + g.gap().y);
}

#[test]
fn grid_column_width_rounds_toward_zero() {
    let g = Grid::new(3, 10, Vec2::new(4, 0));
    let sizes = vec![Vec2::new(0, 0)];
    let (rects, _) = grid::place(g, &sizes, Vec2::new(1, 0), Vec2::new(0, 0));
    assert_eq!(rects[0].size.x, -2);
    let (rects, _) = grid::place(g, &sizes, Vec2::new(18, 0), Vec2::new(0, 0));
    assert_eq!(rects[0].size.x, 3);
}

#[test]
fn grid_without_children_has_no_height() {
    let g = Grid::new(2, 24, Vec2::new(4, 4));
    let sizes: Vec<Vec2> = vec![];
    let (rects, size) = grid::place(g, &sizes, Vec2::new(100, 50), Vec2::new(0, 0));
    assert!(rects.is_empty());
    assert_eq!(size, Vec2::new(100, 0));
}

#[test]
fn grid_accessors_and_builders() {
    let g = Grid::new(3, 24, Vec2::new(4, 6));
    assert_eq!(g.cols(), 3);
    assert_eq!(g.row_height(), 24);
    assert_eq!(g.gap(), Vec2::new(4, 6));
    let h = g.with_cols(5).with_row_height(30).with_gap(Vec2::new(1, 2));
    assert_eq!(h.cols(), 5);
    assert_eq!(h.row_height(), 30);
    assert_eq!(h.gap(), Vec2::new(1, 2));
}

#[test]
fn block_stacks_children_downward() {
    let sizes = vec![Vec2::new(50, 20), Vec2::new(80, 10), Vec2::new(10, 5)];
    let (rects, size) = block::place(&sizes, Vec2::new(5, 7));
    assert_eq!(rects, vec![rect(5, 7, 50, 20), rect(5, 27, 80, 10), rect(5, 37, 10, 5)]);
    assert_eq!(size, Vec2::new(80, 35));
}

#[test]
fn block_without_children_has_no_size() {
    let sizes: Vec<Vec2> = vec![];
    let (rects, size) = block::place(&sizes, Vec2::new(5, 7));
    assert!(rects.is_empty());
    assert_eq!(size, Vec2::new(0, 0));
}

#[test]
fn block_heights_are_pinned_to_the_unit_range() {
    let sizes = vec![Vec2::new(1, i32::MAX), Vec2::new(1, i32::MAX)];
    let (rects, size) = block::place(&sizes, Vec2::new(0, 1));
    assert_eq!(rects[1].origin.y, i32::MAX);
    assert_eq!(size, Vec2::new(1, i32::MAX));
}
