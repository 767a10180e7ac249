use vstd::prelude::*;
use crate::layout::rect::Rect;
use crate::signals::{create_signal, EffectId, ReadSignal, Runtime, Subscriber};
use crate::units::{to_unit, saturate, Vec2};
use crate::windowing::events::{EventCtx, EventKind, MouseButton, Phase};

verus! {

/// A push button: a label, and an effect that a click runs.
pub struct Button<T> {
    pub label: ReadSignal<T>,
    /// The effect that a click runs, if any.
    pub on_click: Option<EffectId>,
    /// The pointer is over the button.
    pub hovered: bool,
    /// The renderer's handle of the background, once there is one.
    pub bg_id: Option<usize>,
    /// The renderer's handle of the label, once there is one.
    pub label_id: Option<usize>,
}

impl<T> Clone for Button<T> {
    fn clone(&self) -> (b: Self)
        ensures
            b == *self,
    {
        Button {
            label: self.label,
            on_click: self.on_click,
            hovered: self.hovered,
            bg_id: self.bg_id,
            label_id: self.label_id,
        }
    }
}

/// The event is the left button of the pointer going down.
pub open spec fn is_left_down(ev: EventKind) -> bool {
    ev matches EventKind::PointerDown { button, .. } && button == MouseButton::Left
}

/// The event is the left button of the pointer coming up.
pub open spec fn is_left_up(ev: EventKind) -> bool {
    ev matches EventKind::PointerUp { button, .. } && button == MouseButton::Left
}

/// In a pass `phase`, a button acts on `ev`: on a press, a release or a
/// move in the target pass.
pub open spec fn button_acts(ev: EventKind, phase: Phase) -> bool {
    phase == Phase::Target && (is_left_down(ev) || is_left_up(ev) || ev is PointerMove)
}

/// Whether the pointer is over a button after `ev` in a pass `phase`,
/// when it was (`hovered`) or was not over it before.
pub open spec fn hovered_after(hovered: bool, ev: EventKind, phase: Phase) -> bool {
    if ev is PointerLeave {
        false
    } else if phase == Phase::Target && ev is PointerMove {
        true
    } else {
        hovered
    }
}

impl<T> Button<T> {
    /// A button that shows `label` and does nothing when clicked.
    pub fn new(label: ReadSignal<T>) -> (b: Self)
        ensures
            b.label == label,
            b.on_click.is_none(),
            !b.hovered,
            b.bg_id.is_none(),
            b.label_id.is_none(),
    {
        Button { label, on_click: None, hovered: false, bg_id: None, label_id: None }
    }

    /// A button that shows `txt`, held in a new signal of `rt`.
    pub fn label(rt: &mut Runtime<T>, txt: T) -> (b: Self)
        ensures
            b.label.number() == old(rt).signal_count(),
            b.on_click.is_none(),
            !b.hovered,
            b.bg_id.is_none(),
            b.label_id.is_none(),
            final(rt).signal_count() == old(rt).signal_count() + 1,
            final(rt).value_of(old(rt).signal_count() as int) == txt,
            final(rt).subscribers_of(old(rt).signal_count() as int) == Seq::<Subscriber>::empty(),
            forall|i: int|
                0 <= i < old(rt).signal_count() ==> #[trigger] final(rt).value_of(i) == old(
                    rt,
                ).value_of(i),
            forall|i: int|
                0 <= i < old(rt).signal_count() ==> #[trigger] final(rt).subscribers_of(i) == old(
                    rt,
                ).subscribers_of(i),
            final(rt).stack() == old(rt).stack(),
            final(rt).dirty_queue() == old(rt).dirty_queue(),
            final(rt).next_node_id() == old(rt).next_node_id(),
            final(rt).next_effect_id() == old(rt).next_effect_id(),
    {
        let (read_label, _) = create_signal(rt, txt);
        Self::new(read_label)
    }

    /// The same button with `handler` as the effect that a click runs.
    pub fn on_click(self, handler: EffectId) -> (b: Self)
        ensures
            b.on_click == Some(handler),
            b.label == self.label,
            b.hovered == self.hovered,
            b.bg_id == self.bg_id,
            b.label_id == self.label_id,
    {
        let mut b = self;
        b.on_click = Some(handler);
        b
    }

    /// The button's part in the delivery of `ev`. In the target pass a
    /// press of the left button asks for the focus, a move marks the
    /// button hovered, and a release of the left button is a click: the
    /// effect to run is returned. Each of the three stops the pass. The
    /// pointer's leaving ends the hovering, in any pass.
    pub fn event(&mut self, ctx: &mut EventCtx, ev: &EventKind) -> (clicked: Option<EffectId>)
        ensures
            clicked == if old(ctx).phase == Phase::Target && is_left_up(*ev) {
                old(self).on_click
            } else {
                None
            },
            final(self).hovered == hovered_after(old(self).hovered, *ev, old(ctx).phase),
            final(self).label == old(self).label,
            final(self).on_click == old(self).on_click,
            final(self).bg_id == old(self).bg_id,
            final(self).label_id == old(self).label_id,
            final(ctx).stopped == (old(ctx).stopped || button_acts(*ev, old(ctx).phase)),
            final(ctx).focus.requested() == if old(ctx).phase == Phase::Target && is_left_down(
                *ev,
            ) {
                Some(old(ctx).path@)
            } else {
                old(ctx).focus.requested()
            },
            final(ctx).focus.focused() == old(ctx).focus.focused(),
            final(ctx).focus.held() == old(ctx).focus.held(),
            final(ctx).phase == old(ctx).phase,
            final(ctx).path == old(ctx).path,
            final(ctx).node_layout == old(ctx).node_layout,
            final(ctx).layout_requested == old(ctx).layout_requested,
            final(ctx).default_prevented == old(ctx).default_prevented,
            final(ctx).modifiers == old(ctx).modifiers,
    {
        let at_target = ctx.phase == Phase::Target;
        match *ev {
            EventKind::PointerDown { button, pos } => {
                if at_target && button == MouseButton::Left {
                    ctx.focus.request_focus(ctx.path);
                    ctx.stop_propagation();
                }
                None
            },
            EventKind::PointerMove { pos } => {
                if at_target {
                    self.hovered = true;
                    ctx.stop_propagation();
                }
                None
            },
            EventKind::PointerLeave => {
                self.hovered = false;
                None
            },
            EventKind::PointerUp { button, pos } => {
                if at_target && button == MouseButton::Left {
                    ctx.stop_propagation();
                    self.on_click
                } else {
                    None
                }
            },
            _ => None,
        }
    }

    /// A button is hit wherever its rectangle is.
    pub fn hit_test(&self, pt: Vec2, layout: Rect) -> (hit: bool)
        ensures
            hit == layout.spec_contains(pt),
    {
        layout.contains(pt)
    }

    /// The size of a button whose label is `label_width` wide in a font of
    /// the height `body`, with `pad_x` kept free at the left and at the
    /// right and `pad_y` above and below.
    pub fn measure(&self, label_width: i32, body: i32, pad_x: i32, pad_y: i32) -> (size: Vec2)
        ensures
            size.x == saturate(label_width + 2 * pad_x),
            size.y == saturate(body + 2 * pad_y),
    {
        Vec2 {
            x: to_unit(label_width as i128 + 2 * pad_x as i128),
            y: to_unit(body as i128 + 2 * pad_y as i128),
        }
    }
}

} // verus!
