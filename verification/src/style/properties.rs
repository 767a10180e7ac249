use vstd::prelude::*;
use crate::units::Vec2;

verus! {

/// How a node arranges its children.
#[derive(Copy, Clone, Debug, PartialEq, Eq, Structural)]
pub enum Display {
    Block,
    Flex,
    Grid,
}

/// The main axis of a flex container.
#[derive(Copy, Clone, Debug, PartialEq, Eq, Structural)]
pub enum FlexDir {
    Row,
    Column,
}

/// Where the free space of the main axis goes when no child grows.
#[derive(Copy, Clone, Debug, PartialEq, Eq, Structural)]
pub enum Justify {
    Start,
    Center,
    End,
    SpaceBetween,
}

/// How children are placed on the cross axis.
#[derive(Copy, Clone, Debug, PartialEq, Eq, Structural)]
pub enum Align {
    Start,
    Center,
    End,
    Stretch,
}

/// A colour, one byte per channel.
#[derive(Copy, Clone, Debug, PartialEq, Eq, Structural)]
pub struct Rgba {
    pub r: u8,
    pub g: u8,
    pub b: u8,
    pub a: u8,
}

/// The parameters of a flex container.
#[derive(Copy, Clone, Debug)]
pub struct Flex {
    pub dir: FlexDir,
    pub justify: Justify,
    pub align: Align,
    /// The space between two neighbouring children on the main axis.
    pub gap: i32,
    /// Report the whole available cross extent as the container's own.
    pub fill_cross: bool,
}

impl Flex {
    /// A row that starts at the content origin, with stretched children
    /// and without gaps.
    pub open spec fn spec_default() -> Flex {
        Flex {
            dir: FlexDir::Row,
            justify: Justify::Start,
            align: Align::Stretch,
            gap: 0,
            fill_cross: false,
        }
    }
}

impl Default for Flex {
    fn default() -> (f: Flex)
        ensures
            f == Flex::spec_default(),
    {
        Flex {
            dir: FlexDir::Row,
            justify: Justify::Start,
            align: Align::Stretch,
            gap: 0,
            fill_cross: false,
        }
    }
}

/// The parameters of a grid container. A grid has at least one column.
#[derive(Copy, Clone, Debug)]
pub struct Grid {
    cols: u16,
    row_height: i32,
    gap: Vec2,
}

impl Grid {
    #[verifier::type_invariant]
    spec fn has_a_column(self) -> bool {
        self.cols >= 1
    }

    /// The number of columns.
    pub closed spec fn spec_cols(&self) -> u16 {
        self.cols
    }

    /// The least height of a row.
    pub closed spec fn spec_row_height(&self) -> i32 {
        self.row_height
    }

    /// The space between two columns (`x`) and between two rows (`y`).
    pub closed spec fn spec_gap(&self) -> Vec2 {
        self.gap
    }

    /// Two columns, rows of 24 units, gaps of 4 units.
    pub closed spec fn spec_default() -> Grid {
        Grid { cols: 2, row_height: 24, gap: Vec2 { x: 4, y: 4 } }
    }

    /// What the default grid holds.
    pub proof fn lemma_default()
        ensures
            Grid::spec_default().spec_cols() == 2,
            Grid::spec_default().spec_row_height() == 24,
            Grid::spec_default().spec_gap() == (Vec2 { x: 4, y: 4 }),
    {
    }

    /// A grid of `cols` columns. A grid without a column cannot lay
    /// anything out, so there is none.
    pub fn new(cols: u16, row_height: i32, gap: Vec2) -> (g: Grid)
        requires
            cols >= 1,
        ensures
            g.spec_cols() == cols,
            g.spec_row_height() == row_height,
            g.spec_gap() == gap,
    {
        Grid { cols, row_height, gap }
    }

    #[verifier::when_used_as_spec(spec_cols)]
    pub fn cols(&self) -> (c: u16)
        ensures
            c == self.spec_cols(),
            c >= 1,
    {
        proof {
            use_type_invariant(self);
        }
        self.cols
    }

    #[verifier::when_used_as_spec(spec_row_height)]
    pub fn row_height(&self) -> (h: i32)
        ensures
            h == self.spec_row_height(),
    {
        self.row_height
    }

    #[verifier::when_used_as_spec(spec_gap)]
    pub fn gap(&self) -> (g: Vec2)
        ensures
            g == self.spec_gap(),
    {
        self.gap
    }

    /// The same grid with another number of columns.
    pub fn with_cols(self, cols: u16) -> (g: Grid)
        requires
            cols >= 1,
        ensures
            g.spec_cols() == cols,
            g.spec_row_height() == self.spec_row_height(),
            g.spec_gap() == self.spec_gap(),
    {
        Grid { cols, row_height: self.row_height, gap: self.gap }
    }

    /// The same grid with another least row height.
    pub fn with_row_height(self, row_height: i32) -> (g: Grid)
        ensures
            g.spec_cols() == self.spec_cols(),
            g.spec_row_height() == row_height,
            g.spec_gap() == self.spec_gap(),
    {
        proof {
            use_type_invariant(&self);
        }
        Grid { cols: self.cols, row_height, gap: self.gap }
    }

    /// The same grid with another gap.
    pub fn with_gap(self, gap: Vec2) -> (g: Grid)
        ensures
            g.spec_cols() == self.spec_cols(),
            g.spec_row_height() == self.spec_row_height(),
            g.spec_gap() == gap,
    {
        proof {
            use_type_invariant(&self);
        }
        Grid { cols: self.cols, row_height: self.row_height, gap }
    }
}

impl Default for Grid {
    fn default() -> (g: Grid)
        ensures
            g == Grid::spec_default(),
            g.spec_cols() == 2,
            g.spec_row_height() == 24,
            g.spec_gap() == (Vec2 { x: 4, y: 4 }),
    {
        Grid { cols: 2, row_height: 24, gap: Vec2 { x: 4, y: 4 } }
    }
}

/// What a widget asks of the layout. A widget makes a fresh one each time
/// it is asked; the tree never stores it.
#[derive(Copy, Clone, Debug)]
pub struct Style {
    pub display: Display,
    pub flex: Flex,
    pub grid: Grid,
    /// The share of a flex container's free space that the widget takes.
    pub flex_grow: u32,
    /// The space kept free inside the widget, once per side.
    pub padding: Vec2,
    pub background_color: Option<Rgba>,
    /// A fixed width that replaces the computed one.
    pub width: Option<i32>,
    /// A fixed height that replaces the computed one.
    pub height: Option<i32>,
}

impl Default for Style {
    fn default() -> (s: Style)
        ensures
            s == Style::spec_default(),
            s.display == Display::Block,
            s.flex == Flex::spec_default(),
            s.grid.spec_cols() == 2,
            s.grid.spec_row_height() == 24,
            s.grid.spec_gap() == (Vec2 { x: 4, y: 4 }),
            s.flex_grow == 0,
            s.padding == Vec2::spec_zero(),
            s.background_color.is_none(),
            s.width.is_none(),
            s.height.is_none(),
    {
        Style {
            display: Display::Block,
            flex: Flex::default(),
            grid: Grid::default(),
            flex_grow: 0,
            padding: Vec2 { x: 0, y: 0 },
            background_color: None,
            width: None,
            height: None,
        }
    }
}

impl Style {
    /// A block without padding, colour or fixed size, that does not grow.
    pub open spec fn spec_default() -> Style {
        Style {
            display: Display::Block,
            flex: Flex::spec_default(),
            grid: Grid::spec_default(),
            flex_grow: 0,
            padding: Vec2::spec_zero(),
            background_color: None,
            width: None,
            height: None,
        }
    }

    /// The padding of both sides together.
    pub open spec fn spec_padding_total(self) -> Vec2 {
        self.padding.spec_scaled(2)
    }

    /// The padding before the content: at the left and at the top.
    pub open spec fn spec_padding_tl(self) -> Vec2 {
        self.padding
    }

    #[verifier::when_used_as_spec(spec_padding_total)]
    pub fn padding_total(self) -> (p: Vec2)
        ensures
            p == self.spec_padding_total(),
    {
        self.padding.scaled(2)
    }

    #[verifier::when_used_as_spec(spec_padding_tl)]
    pub fn padding_tl(self) -> (p: Vec2)
        ensures
            p == self.spec_padding_tl(),
    {
        self.padding
    }
}

} // verus!
