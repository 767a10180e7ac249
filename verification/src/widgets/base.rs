use vstd::prelude::*;
use crate::layout::rect::Rect;
use crate::signals::Runtime;
use crate::style::properties::Style;
use crate::units::Vec2;
use crate::widgets::build_context::BuildCtx;
use crate::windowing::events::{EventCtx, EventKind};

verus! {

/// What a widget can do. The tree holds one value of the implementing
/// type in each node; a toolkit with several kinds of widget implements
/// the trait for the enum of them.
pub trait Widget: Sized {
    /// The type of the values that the widgets' signals hold.
    type Value;

    /// What measuring and painting need from outside the tree: fonts, a
    /// theme, the renderer.
    type Env;

    /// The widgets of the node's children, in their visual order. A widget
    /// has none unless it says otherwise.
    fn build(&self, ctx: &mut BuildCtx) -> (children: Vec<Self>)
        default_ensures
            children@ == Seq::<Self>::empty(),
    {
        Vec::new()
    }

    /// The size that the widget's own content needs when it is given
    /// `max_width`.
    fn measure(
        &self,
        max_width: i32,
        rt: &mut Runtime<Self::Value>,
        env: &mut Self::Env,
    ) -> Vec2;

    /// Draws the widget into `layout`.
    fn paint(&mut self, layout: Rect, rt: &mut Runtime<Self::Value>, env: &mut Self::Env);

    /// Handles one event in one pass of its delivery. A widget ignores
    /// events unless it says otherwise.
    fn event(&mut self, ctx: &mut EventCtx, ev: &EventKind, rt: &mut Runtime<Self::Value>)
        default_ensures
            *final(self) == *old(self),
            *final(ctx) == *old(ctx),
            *final(rt) == *old(rt),
    {
    }

    /// Whether the point `pt` hits the widget that is laid out in `layout`.
    /// A widget is hit nowhere unless it says otherwise.
    fn hit_test(&self, pt: Vec2, layout: Rect) -> (hit: bool)
        default_ensures
            !hit,
    {
        false
    }

    /// What the widget asks of the layout, made afresh at every call.
    fn style(&self) -> Style;
}

} // verus!
