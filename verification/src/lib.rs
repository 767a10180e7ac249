//! The core of a retained-mode UI toolkit: a widget tree that computes its
//! layout, routes input along capture, target and bubble passes, tracks what
//! is stale, and is tied to a graph of reactive signals.
//!
//! All geometry is in whole layout units (see `units`). What a renderer, a
//! font or a window system has to do is left to the code around this crate:
//! it implements `Widget` for its widgets, hands events in as
//! `WindowEvent`s and runs the effects that the signals hand back.

pub mod layout;
pub mod signals;
pub mod style;
pub mod units;
pub mod widgets;
pub mod windowing;

pub use layout::{Dirty, LayoutNode, Rect};
pub use style::{Align, Display, FlexDir, Justify, Style};
pub use units::Vec2;
pub use widgets::{
    Button, Checkbox, Column, Element, Image, ImageFit, Scrollable, Text, TextInput, Widget,
};
pub use windowing::{Window, WindowBuilder};
