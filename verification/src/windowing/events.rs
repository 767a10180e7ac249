//! Input events, the context a handler sees, and the focus manager.

use vstd::prelude::*;
use vstd::slice::slice_to_vec;
use crate::layout::rect::Rect;
use crate::units::Vec2;

verus! {

/// A button of the pointing device.
#[derive(Copy, Clone, Debug, PartialEq, Eq, Structural)]
pub enum MouseButton {
    Left,
    Right,
    Middle,
    Back,
    Forward,
    Other(u16),
}

/// A key that is known by its name.
#[derive(Copy, Clone, Debug, PartialEq, Eq, Structural)]
pub enum NamedKey {
    Enter,
    Tab,
    Space,
    ArrowDown,
    ArrowLeft,
    ArrowRight,
    ArrowUp,
    End,
    Home,
    PageDown,
    PageUp,
    Backspace,
    Delete,
    Escape,
    Other,
}

/// The key of a keyboard event.
#[derive(Copy, Clone, Debug, PartialEq, Eq, Structural)]
pub enum Key {
    Named(NamedKey),
    Character(char),
    Unidentified,
}

/// Which modifier keys are held down.
#[derive(Copy, Clone, Debug, PartialEq, Eq, Structural)]
pub struct Modifiers {
    pub shift: bool,
    pub control: bool,
    pub alt: bool,
    pub meta: bool,
}

impl Modifiers {
    /// No modifier key is held down.
    pub open spec fn spec_none() -> Modifiers {
        Modifiers { shift: false, control: false, alt: false, meta: false }
    }

    #[verifier::when_used_as_spec(spec_none)]
    pub fn none() -> (m: Modifiers)
        ensures
            m == Modifiers::spec_none(),
    {
        Modifiers { shift: false, control: false, alt: false, meta: false }
    }
}

/// Whether a key or a button went down or came up.
#[derive(Copy, Clone, Debug, PartialEq, Eq, Structural)]
pub enum ElementState {
    Pressed,
    Released,
}

/// What the window reports, in layout units and with plain values.
#[derive(Copy, Clone, Debug, PartialEq, Eq, Structural)]
pub enum WindowEvent {
    /// The set of modifier keys that are held down has changed.
    ModifiersChanged(Modifiers),
    /// The pointer is at `position` now.
    CursorMoved { position: Vec2 },
    /// The pointer has left the window.
    CursorLeft,
    MouseInput { state: ElementState, button: MouseButton },
    MouseWheel { delta: Vec2 },
    /// A key went down or came up; `text` is the first character of the
    /// text that it produced, if it produced any.
    KeyboardInput { state: ElementState, key: Key, text: Option<char> },
    /// The window has gained (`true`) or lost (`false`) the input focus.
    Focused(bool),
    /// Text is being composed; `first` is its first character, `None`
    /// where the composition is empty.
    ImePreedit { first: Option<char> },
    /// Anything else: resizing, redrawing, closing.
    Other,
}

/// What a widget is told.
#[derive(Copy, Clone, Debug, PartialEq, Eq, Structural)]
pub enum EventKind {
    PointerDown { button: MouseButton, pos: Vec2 },
    PointerUp { button: MouseButton, pos: Vec2 },
    PointerMove { pos: Vec2 },
    PointerLeave,
    Wheel { delta: Vec2 },
    KeyDown { key: Key },
    KeyUp { key: Key },
    CharInput { ch: char },
    FocusIn,
    FocusOut,
}

/// The pass of a delivery: down to the target, at the target, back up.
#[derive(Copy, Clone, Debug, Eq, PartialEq, Structural)]
pub enum Phase {
    Capture,
    Target,
    Bubble,
}

/// One pass of an event along a path, as the tree records it.
pub struct Delivered {
    pub path: Seq<usize>,
    pub kind: EventKind,
    pub phase: Phase,
}

/// The passes of one delivery: the target pass alone, or all three in
/// their order.
pub open spec fn passes(path: Seq<usize>, kind: EventKind, target_only: bool) -> Seq<Delivered> {
    if target_only {
        seq![Delivered { path, kind, phase: Phase::Target }]
    } else {
        seq![
            Delivered { path, kind, phase: Phase::Capture },
            Delivered { path, kind, phase: Phase::Target },
            Delivered { path, kind, phase: Phase::Bubble },
        ]
    }
}

/// `kind` is delivered to its target alone: leaving and focus changes
/// concern one widget, not those around it.
pub open spec fn spec_target_only(kind: EventKind) -> bool {
    kind is PointerLeave || kind is FocusIn || kind is FocusOut
}

#[verifier::when_used_as_spec(spec_target_only)]
pub fn target_only(kind: EventKind) -> (only: bool)
    ensures
        only == spec_target_only(kind),
{
    match kind {
        EventKind::PointerLeave => true,
        EventKind::FocusIn => true,
        EventKind::FocusOut => true,
        _ => false,
    }
}

/// Whether two paths are the same.
pub fn same_path(a: &[usize], b: &[usize]) -> (same: bool)
    ensures
        same == (a@ == b@),
{
    if a.len() != b.len() {
        return false;
    }
    let mut i: usize = 0;
    while i < a.len()
        invariant
            i <= a.len(),
            a@.len() == b@.len(),
            forall|j: int| 0 <= j < i ==> a@[j] == b@[j],
        decreases a.len() - i,
    {
        if a[i] != b[i] {
            return false;
        }
        i += 1;
    }
    assert(a@ =~= b@);
    true
}

/// What a focus manager holds: the path that has the focus, the change of
/// focus that waits, and the modifier keys that are held down.
pub struct FocusState {
    pub focused: Seq<usize>,
    pub requested: Option<Seq<usize>>,
    pub held: Modifiers,
}

/// Which path has the keyboard focus, and which one was asked for.
pub struct FocusManager {
    focused_path: Vec<usize>,
    change_request: Option<Vec<usize>>,
    modifiers: Modifiers,
}

impl Default for FocusManager {
    fn default() -> (f: FocusManager)
        ensures
            f.focused() == Seq::<usize>::empty(),
            f.requested().is_none(),
            f.held() == Modifiers::spec_none(),
    {
        FocusManager {
            focused_path: Vec::new(),
            change_request: None,
            modifiers: Modifiers::none(),
        }
    }
}

impl View for FocusManager {
    type V = FocusState;

    open spec fn view(&self) -> FocusState {
        FocusState { focused: self.focused(), requested: self.requested(), held: self.held() }
    }
}

impl FocusManager {
    /// The path that has the focus; the empty path where nothing has it.
    pub closed spec fn focused(self) -> Seq<usize> {
        self.focused_path@
    }

    /// The change of focus that waits to be carried out.
    pub closed spec fn requested(self) -> Option<Seq<usize>> {
        match self.change_request {
            Some(p) => Some(p@),
            None => None,
        }
    }

    /// The modifier keys that are held down.
    pub closed spec fn held(&self) -> Modifiers {
        self.modifiers
    }

    #[verifier::when_used_as_spec(held)]
    pub fn modifiers(&self) -> (m: Modifiers)
        ensures
            m == self.held(),
    {
        self.modifiers
    }

    /// Records which modifier keys are held down from now on.
    pub fn set_modifiers(&mut self, modifiers: Modifiers)
        ensures
            final(self).held() == modifiers,
            final(self).focused() == old(self).focused(),
            final(self).requested() == old(self).requested(),
    {
        self.modifiers = modifiers;
    }

    /// Asks for the focus to move to `path`. The focus does not move now:
    /// the request waits until the event that is under way has been
    /// delivered in full. A later request replaces an earlier one.
    pub fn request_focus(&mut self, path: &[usize])
        ensures
            final(self).requested() == Some(path@),
            final(self).focused() == old(self).focused(),
            final(self).held() == old(self).held(),
    {
        self.change_request = Some(slice_to_vec(path));
    }

    /// Asks for the focus to be given up.
    pub fn blur(&mut self)
        ensures
            final(self).requested() == Some(Seq::<usize>::empty()),
            final(self).focused() == old(self).focused(),
            final(self).held() == old(self).held(),
    {
        self.change_request = Some(Vec::new());
    }

    /// The path that has the focus.
    pub fn path(&self) -> (p: &[usize])
        ensures
            p@ == self.focused(),
    {
        self.focused_path.as_slice()
    }

    /// Whether `path` is the path that has the focus.
    pub fn has_focus(&self, path: &[usize]) -> (has: bool)
        ensures
            has == (path@ == self.focused()),
    {
        same_path(path, self.focused_path.as_slice())
    }

    /// Takes the waiting request, if there is one.
    pub fn take_change_request(&mut self) -> (request: Option<Vec<usize>>)
        ensures
            match request {
                Some(p) => old(self).requested() == Some(p@),
                None => old(self).requested().is_none(),
            },
            final(self).requested().is_none(),
            final(self).focused() == old(self).focused(),
            final(self).held() == old(self).held(),
    {
        self.change_request.take()
    }

    /// Moves the focus to `new_path`.
    pub fn commit_focus_change(&mut self, new_path: Vec<usize>)
        ensures
            final(self).focused() == new_path@,
            final(self).requested() == old(self).requested(),
            final(self).held() == old(self).held(),
    {
        self.focused_path = new_path;
    }
}

/// What a handler sees of the delivery that it is part of. It holds the
/// focus manager while the pass runs; the pass hands it back as the last
/// handler left it.
pub struct EventCtx<'a> {
    pub phase: Phase,
    pub focus: FocusManager,
    /// The path of the delivery's target.
    pub path: &'a [usize],
    /// The rectangle of the node whose handler is running.
    pub node_layout: Rect,
    /// A handler has stopped this pass.
    pub stopped: bool,
    /// A handler has asked for the default action to be left out.
    pub default_prevented: bool,
    /// A handler has asked for a new layout.
    pub layout_requested: bool,
    pub modifiers: Modifiers,
}

impl<'a> EventCtx<'a> {
    /// Whether a handler has stopped this pass.
    pub open spec fn spec_is_stopped(&self) -> bool {
        self.stopped
    }

    /// Asks for the node to be measured and laid out again.
    pub fn request_layout(&mut self)
        ensures
            final(self).layout_requested,
            final(self).stopped == old(self).stopped,
            final(self).default_prevented == old(self).default_prevented,
            final(self).phase == old(self).phase,
            final(self).path == old(self).path,
            final(self).node_layout == old(self).node_layout,
            final(self).modifiers == old(self).modifiers,
            final(self).focus == old(self).focus,
    {
        self.layout_requested = true;
    }

    /// Stops this pass: in the capture pass it goes no further down, in
    /// the bubble pass no further up.
    pub fn stop_propagation(&mut self)
        ensures
            final(self).stopped,
            final(self).layout_requested == old(self).layout_requested,
            final(self).default_prevented == old(self).default_prevented,
            final(self).phase == old(self).phase,
            final(self).path == old(self).path,
            final(self).node_layout == old(self).node_layout,
            final(self).modifiers == old(self).modifiers,
            final(self).focus == old(self).focus,
    {
        self.stopped = true;
    }

    /// Asks for the default action of the event to be left out.
    pub fn prevent_default(&mut self)
        ensures
            final(self).default_prevented,
            final(self).stopped == old(self).stopped,
            final(self).layout_requested == old(self).layout_requested,
            final(self).phase == old(self).phase,
            final(self).path == old(self).path,
            final(self).node_layout == old(self).node_layout,
            final(self).modifiers == old(self).modifiers,
            final(self).focus == old(self).focus,
    {
        self.default_prevented = true;
    }

    #[verifier::when_used_as_spec(spec_is_stopped)]
    pub fn is_stopped(&self) -> (s: bool)
        ensures
            s == self.stopped,
    {
        self.stopped
    }

    /// The context of a pass that is about to begin: nothing is stopped,
    /// prevented or requested yet.
    pub fn new(
        phase: Phase,
        focus: FocusManager,
        path: &'a [usize],
        node_layout: Rect,
        modifiers: Modifiers,
    ) -> (ctx: Self)
        ensures
            ctx.phase == phase,
            ctx.focus == focus,
            ctx.path == path,
            ctx.node_layout == node_layout,
            ctx.modifiers == modifiers,
            !ctx.stopped,
            !ctx.default_prevented,
            !ctx.layout_requested,
    {
        EventCtx {
            phase,
            focus,
            path,
            node_layout,
            stopped: false,
            default_prevented: false,
            layout_requested: false,
            modifiers,
        }
    }
}

} // verus!
