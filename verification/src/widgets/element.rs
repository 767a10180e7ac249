use vstd::prelude::*;
use crate::style::properties::{Align, Display, FlexDir, Justify, Rgba, Style};
use crate::units::Vec2;

verus! {

/// A container that is all style: it holds children and says how they are
/// laid out.
pub struct Element<W> {
    pub style: Style,
    pub children: Vec<W>,
    /// The renderer's handle of the background, once there is one.
    pub bg_id: Option<usize>,
}

impl<W: Clone> Clone for Element<W> {
    fn clone(&self) -> (e: Self)
        ensures
            e.style == self.style,
            e.bg_id == self.bg_id,
            e.children@.len() == self.children@.len(),
            forall|i: int|
                0 <= i < self.children@.len() ==> cloned::<W>(
                    self.children@[i],
                    #[trigger] e.children@[i],
                ),
    {
        Element { style: self.style, children: self.children.clone(), bg_id: self.bg_id }
    }
}

impl<W> Element<W> {
    /// An element with the default style and without children.
    pub fn new() -> (e: Self)
        ensures
            e.style == Style::spec_default(),
            e.children@ == Seq::<W>::empty(),
            e.bg_id.is_none(),
    {
        Element { style: Style::default(), children: Vec::new(), bg_id: None }
    }

    /// The same element with `v` as whether it reports the whole
    /// available cross extent as its own.
    pub fn fill_cross(self, v: bool) -> (e: Self)
        ensures
            e.style == (Style {
                flex: crate::style::properties::Flex { fill_cross: v, ..self.style.flex },
                ..self.style
            }),
            e.children == self.children,
            e.bg_id == self.bg_id,
    {
        let mut e = self;
        e.style.flex.fill_cross = v;
        e
    }

    /// The same element with `widget` as one more child, the last.
    pub fn child(self, widget: W) -> (e: Self)
        ensures
            e.children@ == self.children@.push(widget),
            e.style == self.style,
            e.bg_id == self.bg_id,
    {
        let mut e = self;
        e.children.push(widget);
        e
    }

    /// The same element with `widgets` as more children, in their order.
    pub fn children(self, widgets: Vec<W>) -> (e: Self)
        ensures
            e.children@ == self.children@ + widgets@,
            e.style == self.style,
            e.bg_id == self.bg_id,
    {
        let mut e = self;
        let mut more = widgets;
        e.children.append(&mut more);
        e
    }

    pub fn display(self, display: Display) -> (e: Self)
        ensures
            e.style == (Style { display, ..self.style }),
            e.children == self.children,
            e.bg_id == self.bg_id,
    {
        let mut e = self;
        e.style.display = display;
        e
    }

    pub fn width(self, width: i32) -> (e: Self)
        ensures
            e.style == (Style { width: Some(width), ..self.style }),
            e.children == self.children,
            e.bg_id == self.bg_id,
    {
        let mut e = self;
        e.style.width = Some(width);
        e
    }

    pub fn height(self, height: i32) -> (e: Self)
        ensures
            e.style == (Style { height: Some(height), ..self.style }),
            e.children == self.children,
            e.bg_id == self.bg_id,
    {
        let mut e = self;
        e.style.height = Some(height);
        e
    }

    /// The same element with `padding` kept free on every side.
    pub fn padding(self, padding: i32) -> (e: Self)
        ensures
            e.style == (Style { padding: Vec2 { x: padding, y: padding }, ..self.style }),
            e.children == self.children,
            e.bg_id == self.bg_id,
    {
        let mut e = self;
        e.style.padding = Vec2::splat(padding);
        e
    }

    pub fn background_color(self, color: Rgba) -> (e: Self)
        ensures
            e.style == (Style { background_color: Some(color), ..self.style }),
            e.children == self.children,
            e.bg_id == self.bg_id,
    {
        let mut e = self;
        e.style.background_color = Some(color);
        e
    }

    pub fn flex_direction(self, dir: FlexDir) -> (e: Self)
        ensures
            e.style == (Style {
                flex: crate::style::properties::Flex { dir, ..self.style.flex },
                ..self.style
            }),
            e.children == self.children,
            e.bg_id == self.bg_id,
    {
        let mut e = self;
        e.style.flex.dir = dir;
        e
    }

    pub fn justify_content(self, justify: Justify) -> (e: Self)
        ensures
            e.style == (Style {
                flex: crate::style::properties::Flex { justify, ..self.style.flex },
                ..self.style
            }),
            e.children == self.children,
            e.bg_id == self.bg_id,
    {
        let mut e = self;
        e.style.flex.justify = justify;
        e
    }

    pub fn align_items(self, align: Align) -> (e: Self)
        ensures
            e.style == (Style {
                flex: crate::style::properties::Flex { align, ..self.style.flex },
                ..self.style
            }),
            e.children == self.children,
            e.bg_id == self.bg_id,
    {
        let mut e = self;
        e.style.flex.align = align;
        e
    }

    /// The same element with a grid of `cols` columns. A grid has at
    /// least one column.
    pub fn grid_cols(self, cols: u16) -> (e: Self)
        requires
            cols >= 1,
        ensures
            e.style.grid.spec_cols() == cols,
            e.style.grid.spec_row_height() == self.style.grid.spec_row_height(),
            e.style.grid.spec_gap() == self.style.grid.spec_gap(),
            e.style == (Style { grid: e.style.grid, ..self.style }),
            e.children == self.children,
            e.bg_id == self.bg_id,
    {
        let mut e = self;
        let grid = e.style.grid.with_cols(cols);
        e.style.grid = grid;
        e
    }

    pub fn grid_row_height(self, height: i32) -> (e: Self)
        ensures
            e.style.grid.spec_cols() == self.style.grid.spec_cols(),
            e.style.grid.spec_row_height() == height,
            e.style.grid.spec_gap() == self.style.grid.spec_gap(),
            e.style == (Style { grid: e.style.grid, ..self.style }),
            e.children == self.children,
            e.bg_id == self.bg_id,
    {
        let mut e = self;
        let grid = e.style.grid.with_row_height(height);
        e.style.grid = grid;
        e
    }

    /// The same element with `gap` between its children, in a row or
    /// column as in a grid.
    pub fn gap(self, gap: i32) -> (e: Self)
        ensures
            e.style.flex == (crate::style::properties::Flex { gap, ..self.style.flex }),
            e.style.grid.spec_cols() == self.style.grid.spec_cols(),
            e.style.grid.spec_row_height() == self.style.grid.spec_row_height(),
            e.style.grid.spec_gap() == (Vec2 { x: gap, y: gap }),
            e.style == (Style { flex: e.style.flex, grid: e.style.grid, ..self.style }),
            e.children == self.children,
            e.bg_id == self.bg_id,
    {
        let mut e = self;
        e.style.flex.gap = gap;
        let grid = e.style.grid.with_gap(Vec2::splat(gap));
        e.style.grid = grid;
        e
    }
}

} // verus!
