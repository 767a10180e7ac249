pub mod block;
pub mod dirty;
pub mod flexbox;
pub mod grid;
pub mod node;
pub mod measuring;
pub mod painting;
pub mod passes;
pub mod paths;
pub mod rect;
pub mod routing;
pub mod tree;

pub use dirty::Dirty;
pub use rect::Rect;

use vstd::prelude::*;
use crate::layout::measuring::Measures;
use crate::layout::node::Node;
use crate::layout::tree::Tree;
use crate::signals::Runtime;
use crate::style::properties::Style;
use crate::units::Vec2;
use crate::widgets::base::Widget;

verus! {

/// A node as the layout alone sees it.
pub struct LayoutNode<W: Widget>(pub Node<W>);

impl<W: Widget> LayoutNode<W> {
    /// Lays the tree out for the width `max_w` and returns the size of its
    /// root.
    pub fn layout<'r>(
        &mut self,
        max_w: i32,
        rt: &mut Runtime<W::Value>,
        env: &mut W::Env,
    ) -> (size: Vec2)
        ensures
            exists|calls: Measures<'r, W>|
                {
                    &&& #[trigger] old(self).0@.laid_out(max_w, final(self).0@, calls)
                    &&& forall|path: Seq<usize>|
                        (#[trigger] calls.at(path)).is_some() ==> *final(calls.at(path).unwrap().rt)
                            == calls.at(path).unwrap().left
                    &&& calls.keeps_stack() ==> final(rt).stack() == old(rt).stack()
                },
            size == final(self).0@.cached_size,
            !old(self).0@.dirty.self_dirty && !old(self).0@.dirty.child_dirty ==> {
                &&& *final(rt) == *old(rt)
                &&& *final(env) == *old(env)
            },
    {
        self.0.layout(max_w, rt, env)
    }

    /// The size that the last layout found for the node.
    pub fn cached_size(&self) -> (size: Vec2)
        ensures
            size == self.0@.cached_size,
    {
        self.0.cached_size
    }

    /// Puts the node at `r` and marks nothing stale.
    pub fn set_layout_rect(&mut self, r: Rect)
        ensures
            final(self).0@ == (Tree { layout_rect: r, ..old(self).0@ }),
    {
        self.0.layout_rect = r
    }

    /// The corner of the node's rectangle, from which its parent laid it
    /// out.
    pub fn parent_origin(&self) -> (origin: Vec2)
        ensures
            origin == self.0@.layout_rect.origin,
    {
        self.0.layout_rect.origin
    }

    /// What the widget's `style` gives for the node's widget as it is.
    pub fn style(&self) -> (s: Style)
        ensures
            call_ensures(W::style, (&self.0@.widget,), s),
    {
        self.0.widget.style()
    }
}

} // verus!
