use vstd::prelude::*;
use crate::layout::rect::Rect;
use crate::signals::{create_signal, ReadSignal, Runtime, Subscriber};
use crate::style::properties::Rgba;
use crate::units::{half, saturate, to_unit, Vec2};

verus! {

/// A line of text that a signal holds.
pub struct Text<T> {
    pub content: ReadSignal<T>,
    /// The colour of the text; the theme's where there is none.
    pub color: Option<Rgba>,
    /// The height of the font; the theme's where there is none.
    pub size: Option<i32>,
}

impl<T> Clone for Text<T> {
    fn clone(&self) -> (t: Self)
        ensures
            t == *self,
    {
        Text { content: self.content, color: self.color, size: self.size }
    }
}

impl<T> Text<T> {
    /// A text that shows what `content` holds.
    pub fn new(content: ReadSignal<T>) -> (t: Self)
        ensures
            t.content == content,
            t.color.is_none(),
            t.size.is_none(),
    {
        Text { content, color: None, size: None }
    }

    /// A text that shows `content`, held in a new signal of `rt`.
    pub fn from_str(rt: &mut Runtime<T>, content: T) -> (t: Self)
        ensures
            t.content.number() == old(rt).signal_count(),
            t.color.is_none(),
            t.size.is_none(),
            final(rt).signal_count() == old(rt).signal_count() + 1,
            final(rt).value_of(old(rt).signal_count() as int) == content,
            final(rt).subscribers_of(old(rt).signal_count() as int) == Seq::<Subscriber>::empty(),
            forall|i: int|
                0 <= i < old(rt).signal_count() ==> #[trigger] final(rt).value_of(i) == old(
                    rt,
                ).value_of(i),
            forall|i: int|
                0 <= i < old(rt).signal_count() ==> #[trigger] final(rt).subscribers_of(i) == old(
                    rt,
                ).subscribers_of(i),
            final(rt).stack() == old(rt).stack(),
            final(rt).dirty_queue() == old(rt).dirty_queue(),
            final(rt).next_node_id() == old(rt).next_node_id(),
            final(rt).next_effect_id() == old(rt).next_effect_id(),
    {
        let (read, _) = create_signal(rt, content);
        Self::new(read)
    }

    pub fn with_color(self, color: Rgba) -> (t: Self)
        ensures
            t.color == Some(color),
            t.content == self.content,
            t.size == self.size,
    {
        let mut t = self;
        t.color = Some(color);
        t
    }

    pub fn with_size(self, size: i32) -> (t: Self)
        ensures
            t.size == Some(size),
            t.content == self.content,
            t.color == self.color,
    {
        let mut t = self;
        t.size = Some(size);
        t
    }

    /// The height of the font: the text's own, or `body` where it has
    /// none.
    pub fn font_size(&self, body: i32) -> (size: i32)
        ensures
            size == match self.size {
                Some(own) => own,
                None => body,
            },
    {
        match self.size {
            Some(own) => own,
            None => body,
        }
    }

    /// The size of the text when it is `text_width` wide in its font.
    pub fn measure(&self, text_width: i32, body: i32) -> (size: Vec2)
        ensures
            size == (Vec2 {
                x: text_width,
                y: match self.size {
                    Some(own) => own,
                    None => body,
                },
            }),
    {
        Vec2 { x: text_width, y: self.font_size(body) }
    }

    /// Where the text is drawn in `layout` when it is `text_width` wide:
    /// centred between the left and the right edge, at the top.
    pub fn draw_pos(&self, layout: Rect, text_width: i32) -> (pos: Vec2)
        ensures
            pos.x == saturate(layout.origin.x + half(layout.size.x - text_width)),
            pos.y == layout.origin.y,
    {
        let offset = (layout.size.x as i128 - text_width as i128) / 2;
        Vec2 { x: to_unit(layout.origin.x as i128 + offset), y: layout.origin.y }
    }
}

} // verus!
