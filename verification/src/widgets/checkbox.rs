use vstd::prelude::*;
use crate::signals::{create_signal, ReadSignal, Runtime, WriteSignal};
use crate::units::{saturate, to_unit, Vec2};
use crate::widgets::button::is_left_down;
use crate::windowing::events::{EventCtx, EventKind, Key, MouseButton, NamedKey};

verus! {

/// A check box: a label and a signal that holds whether it is checked.
pub struct Checkbox<T> {
    pub label: ReadSignal<T>,
    /// The two handles of the signal that holds the state.
    pub state: (ReadSignal<T>, WriteSignal<T>),
    /// The pointer is over the box.
    pub hovered: bool,
    /// The box has the keyboard focus.
    pub focused: bool,
    /// The left button is held down on the box.
    pub pressed: bool,
    pub border_id: Option<usize>,
    pub fill_id: Option<usize>,
    pub focus_ring_id: Option<usize>,
}

impl<T> Clone for Checkbox<T> {
    fn clone(&self) -> (c: Self)
        ensures
            c == *self,
    {
        Checkbox {
            label: self.label,
            state: (self.state.0, self.state.1),
            hovered: self.hovered,
            focused: self.focused,
            pressed: self.pressed,
            border_id: self.border_id,
            fill_id: self.fill_id,
            focus_ring_id: self.focus_ring_id,
        }
    }
}

/// What a check box knows of itself besides its signals.
#[derive(Copy, Clone, Debug, PartialEq, Eq, Structural)]
pub struct BoxState {
    pub hovered: bool,
    pub focused: bool,
    pub pressed: bool,
}

/// The event is the space bar going down.
pub open spec fn is_space_down(ev: EventKind) -> bool {
    ev matches EventKind::KeyDown { key } && key == Key::Named(NamedKey::Space)
}

/// The event toggles a check box that is in the state `s`: a press of the
/// left button, or the space bar while the box has the focus.
pub open spec fn toggles(s: BoxState, ev: EventKind) -> bool {
    is_left_down(ev) || (is_space_down(ev) && s.focused)
}

/// The state of a check box after `ev`.
pub open spec fn box_after(s: BoxState, ev: EventKind) -> BoxState {
    match ev {
        EventKind::PointerDown { button, .. } => if button == MouseButton::Left {
            BoxState { pressed: true, ..s }
        } else {
            s
        },
        EventKind::PointerUp { button, .. } => if button == MouseButton::Left {
            BoxState { pressed: false, ..s }
        } else {
            s
        },
        EventKind::PointerMove { .. } => BoxState { hovered: true, ..s },
        EventKind::PointerLeave => BoxState { hovered: false, pressed: false, ..s },
        EventKind::FocusIn => BoxState { focused: true, ..s },
        EventKind::FocusOut => BoxState { focused: false, ..s },
        _ => s,
    }
}

impl<T> Checkbox<T> {
    /// What the box knows of itself.
    pub open spec fn box_state(self) -> BoxState {
        BoxState { hovered: self.hovered, focused: self.focused, pressed: self.pressed }
    }

    /// A check box that shows `label` and keeps its state in `state`.
    pub fn new(label: ReadSignal<T>, state: (ReadSignal<T>, WriteSignal<T>)) -> (c: Self)
        ensures
            c.label == label,
            c.state == state,
            c.box_state() == (BoxState { hovered: false, focused: false, pressed: false }),
            c.border_id.is_none(),
            c.fill_id.is_none(),
            c.focus_ring_id.is_none(),
    {
        Checkbox {
            label,
            state,
            hovered: false,
            focused: false,
            pressed: false,
            border_id: None,
            fill_id: None,
            focus_ring_id: None,
        }
    }

    /// A check box with two new signals of `rt`: one that holds
    /// `unchecked`, the value for a box that is not checked, and one that
    /// holds `label`.
    pub fn new_with_label(rt: &mut Runtime<T>, label: T, unchecked: T) -> (c: Self)
        ensures
            c.state.0.number() == old(rt).signal_count(),
            c.state.1.number() == old(rt).signal_count(),
            c.label.number() == old(rt).signal_count() + 1,
            c.box_state() == (BoxState { hovered: false, focused: false, pressed: false }),
            c.border_id.is_none(),
            c.fill_id.is_none(),
            c.focus_ring_id.is_none(),
            final(rt).signal_count() == old(rt).signal_count() + 2,
            final(rt).value_of(old(rt).signal_count() as int) == unchecked,
            final(rt).value_of(old(rt).signal_count() as int + 1) == label,
            forall|i: int|
                0 <= i < old(rt).signal_count() ==> #[trigger] final(rt).value_of(i) == old(
                    rt,
                ).value_of(i),
            forall|i: int|
                0 <= i < old(rt).signal_count() ==> #[trigger] final(rt).subscribers_of(i) == old(
                    rt,
                ).subscribers_of(i),
            final(rt).subscribers_of(old(rt).signal_count() as int).len() == 0,
            final(rt).subscribers_of(old(rt).signal_count() as int + 1).len() == 0,
            final(rt).stack() == old(rt).stack(),
            final(rt).dirty_queue() == old(rt).dirty_queue(),
            final(rt).next_node_id() == old(rt).next_node_id(),
            final(rt).next_effect_id() == old(rt).next_effect_id(),
    {
        let state = create_signal(rt, unchecked);
        let (read_label, _) = create_signal(rt, label);
        Self::new(read_label, state)
    }

    /// The box's part in the delivery of `ev`, in whatever pass. A press
    /// of the left button holds the box down, toggles it and asks for the
    /// focus; a release lets it go; a move marks it hovered; the pointer's
    /// leaving ends both; the space bar toggles the box while it has the
    /// focus. Tells whether the box is to be toggled: the caller writes
    /// the state.
    pub fn event(&mut self, ctx: &mut EventCtx, ev: &EventKind) -> (toggle: bool)
        ensures
            toggle == toggles(old(self).box_state(), *ev),
            final(self).box_state() == box_after(old(self).box_state(), *ev),
            final(self).label == old(self).label,
            final(self).state == old(self).state,
            final(self).border_id == old(self).border_id,
            final(self).fill_id == old(self).fill_id,
            final(self).focus_ring_id == old(self).focus_ring_id,
            final(ctx).focus.requested() == if is_left_down(*ev) {
                Some(old(ctx).path@)
            } else {
                old(ctx).focus.requested()
            },
            final(ctx).focus.focused() == old(ctx).focus.focused(),
            final(ctx).focus.held() == old(ctx).focus.held(),
            final(ctx).stopped == old(ctx).stopped,
            final(ctx).phase == old(ctx).phase,
            final(ctx).path == old(ctx).path,
            final(ctx).node_layout == old(ctx).node_layout,
            final(ctx).layout_requested == old(ctx).layout_requested,
            final(ctx).default_prevented == old(ctx).default_prevented,
            final(ctx).modifiers == old(ctx).modifiers,
    {
        match *ev {
            EventKind::PointerDown { button, pos } => {
                if button == MouseButton::Left {
                    self.pressed = true;
                    ctx.focus.request_focus(ctx.path);
                    true
                } else {
                    false
                }
            },
            EventKind::PointerUp { button, pos } => {
                if button == MouseButton::Left {
                    self.pressed = false;
                }
                false
            },
            EventKind::PointerMove { pos } => {
                self.hovered = true;
                false
            },
            EventKind::PointerLeave => {
                self.hovered = false;
                self.pressed = false;
                false
            },
            EventKind::KeyDown { key } => {
                key == Key::Named(NamedKey::Space) && self.focused
            },
            EventKind::FocusIn => {
                self.focused = true;
                false
            },
            EventKind::FocusOut => {
                self.focused = false;
                false
            },
            _ => false,
        }
    }

    /// The size of a check box whose label is `label_width` wide: the
    /// box, as high and as wide as the font, the spacing, and the label.
    pub fn measure(&self, label_width: i32, body: i32, spacing: i32) -> (size: Vec2)
        ensures
            size.x == saturate(body + spacing + label_width),
            size.y == body,
    {
        Vec2 { x: to_unit(body as i128 + spacing as i128 + label_width as i128), y: body }
    }
}

} // verus!
