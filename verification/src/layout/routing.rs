//! Routing input through the tree: hit-testing, the three passes of a
//! delivery, hover and focus.

use vstd::prelude::*;
use vstd::slice::slice_to_vec;
use crate::layout::node::Node;
use crate::layout::painting::{
    keep_stack, lemma_keep_more, lemma_keep_whole, lemma_no_paints, Painting, Paints,
};
use crate::layout::passes::{
    begins, focus_left, lemma_pass_keeps, lemma_passes_keep, pass_keeps_stack,
    passes_keep_request, passes_keep_stack, Handling,
};
use crate::layout::rect::Rect;
use crate::layout::tree::Tree;
use crate::signals::{lemma_scope_restores, Runtime, ScopedNodeContext, Subscriber};
use crate::units::Vec2;
use crate::widgets::base::Widget;
use crate::windowing::events::{
    passes, same_path, target_only, Delivered, ElementState, EventCtx, EventKind, FocusManager,
    FocusState, Modifiers, Phase, WindowEvent,
};

verus! {

impl<W: Widget> Tree<W> {
    /// The passes that delivering `kind` to `path` adds to the history:
    /// those of the delivery where the path leads to a node, none where it
    /// does not, for then nothing is delivered.
    pub open spec fn delivered(self, path: Seq<usize>, kind: EventKind) -> Seq<Delivered> {
        if self.valid_path(path) {
            passes(path, kind, target_only(kind))
        } else {
            Seq::empty()
        }
    }

    /// The passes that telling the hovered node of the pointer's leaving
    /// adds to the history. Without a hovered node there are none.
    pub open spec fn leave_passes(self) -> Seq<Delivered> {
        if self.hover_path.len() > 0 {
            self.delivered(self.hover_path, EventKind::PointerLeave)
        } else {
            Seq::empty()
        }
    }

    /// The passes that a move of the pointer to `pos` adds to the history.
    /// Where the pointer stays over the node that it was over, that node
    /// is told of the move. Where it comes over another node, the node
    /// that it was over is told that it left, then the other is told of
    /// the move. Where it is over no node, the node that it was over is
    /// told that it left.
    pub open spec fn pointer_passes(self, pos: Vec2) -> Seq<Delivered> {
        match self.hit(pos) {
            None => self.leave_passes(),
            Some(path) => if path == self.hover_path {
                self.delivered(path, EventKind::PointerMove { pos })
            } else {
                self.leave_passes() + self.delivered(path, EventKind::PointerMove { pos })
            },
        }
    }

    /// The hover path after a move of the pointer to `pos`.
    pub open spec fn hover_after(self, pos: Vec2) -> Seq<usize> {
        match self.hit(pos) {
            None => Seq::empty(),
            Some(path) => path,
        }
    }

    /// The event is dropped on the spot: it is meant for the hovered node
    /// and there is none, or for the focused node and there is none.
    /// Nothing is delivered then and no change of focus is carried out.
    pub open spec fn drops(self, event: WindowEvent, focused: Seq<usize>) -> bool {
        match event {
            WindowEvent::MouseInput { .. } => self.hover_path.len() == 0,
            WindowEvent::MouseWheel { .. } => self.hover_path.len() == 0,
            WindowEvent::KeyboardInput { text, .. } => focused.len() == 0 && text.is_none(),
            WindowEvent::ImePreedit { first } => first.is_some() && focused.len() == 0,
            _ => false,
        }
    }

    /// The passes that `event` itself adds to the history, before any
    /// change of focus: pointer events go to the hovered node, keys and
    /// characters to the focused one.
    pub open spec fn event_passes(self, event: WindowEvent, focused: Seq<usize>) -> Seq<Delivered> {
        if self.drops(event, focused) {
            Seq::empty()
        } else {
            match event {
                WindowEvent::CursorMoved { position } => self.pointer_passes(position),
                WindowEvent::CursorLeft => self.leave_passes(),
                WindowEvent::MouseInput { state, button } => self.delivered(
                    self.hover_path,
                    match state {
                        ElementState::Pressed => EventKind::PointerDown {
                            button,
                            pos: Vec2::spec_zero(),
                        },
                        ElementState::Released => EventKind::PointerUp {
                            button,
                            pos: Vec2::spec_zero(),
                        },
                    },
                ),
                WindowEvent::MouseWheel { delta } => self.delivered(
                    self.hover_path,
                    EventKind::Wheel { delta },
                ),
                WindowEvent::KeyboardInput { state, key, text } => self.delivered(
                    focused,
                    match state {
                        ElementState::Pressed => EventKind::KeyDown { key },
                        ElementState::Released => EventKind::KeyUp { key },
                    },
                ) + match text {
                    Some(ch) => self.delivered(focused, EventKind::CharInput { ch }),
                    None => Seq::empty(),
                },
                WindowEvent::ImePreedit { first: Some(ch) } => self.delivered(
                    focused,
                    EventKind::CharInput { ch },
                ),
                _ => Seq::empty(),
            }
        }
    }

    /// The hover path after `event`.
    pub open spec fn hover_after_event(self, event: WindowEvent) -> Seq<usize> {
        match event {
            WindowEvent::CursorMoved { position } => self.hover_after(position),
            WindowEvent::CursorLeft => Seq::empty(),
            _ => self.hover_path,
        }
    }

    /// The request moves the focus: it asks for another path than the
    /// focused one, and that path leads to a node.
    pub open spec fn focus_moves(self, focused: Seq<usize>, request: Option<Seq<usize>>) -> bool {
        request matches Some(path) && path != focused && self.valid_path(path)
    }

    /// The passes that carrying out `request` adds to the history: the
    /// node that had the focus is told that it lost it, then the node
    /// that was asked for is told that it has it. The empty path stands
    /// for no node.
    pub open spec fn focus_passes(self, focused: Seq<usize>, request: Option<Seq<usize>>) -> Seq<
        Delivered,
    > {
        if self.focus_moves(focused, request) {
            (if focused.len() > 0 {
                self.delivered(focused, EventKind::FocusOut)
            } else {
                Seq::empty()
            }) + (if request.unwrap().len() > 0 {
                self.delivered(request.unwrap(), EventKind::FocusIn)
            } else {
                Seq::empty()
            })
        } else {
            Seq::empty()
        }
    }

    /// The focused path after `request` was carried out.
    pub open spec fn focus_after(self, focused: Seq<usize>, request: Option<Seq<usize>>) -> Seq<
        usize,
    > {
        if self.focus_moves(focused, request) {
            request.unwrap()
        } else {
            focused
        }
    }

    /// `after` is `self` once `added` was delivered: the history is longer
    /// by `added`, the hover path is the same, and no node has moved,
    /// changed its size or its identity, or lost a dirty flag.
    pub open spec fn served(self, after: Tree<W>, added: Seq<Delivered>) -> bool {
        &&& after.history == self.history + added
        &&& after.hover_path == self.hover_path
        &&& self.unmoved(after)
    }

    /// What a handler can make of the node that it runs on: the node is
    /// to be painted again, it may have another widget and more dirty
    /// flags set, and nothing else of it differs.
    pub open spec fn handled(self, after: Tree<W>) -> bool {
        &&& after.id == self.id
        &&& after.layout_rect == self.layout_rect
        &&& after.cached_size == self.cached_size
        &&& after.style == self.style
        &&& after.hover_path == self.hover_path
        &&& after.history == self.history
        &&& after.children == self.children
        &&& self.dirty.within(after.dirty)
        &&& after.dirty.paint_dirty
    }

    /// The pointer goes from over one node to over another: the node
    /// that it was over is told once, in the target pass alone, that it
    /// left; then the other is told of the move, in the three passes. The
    /// pointer stays over a node: that node is told of the move in the
    /// three passes and nothing else is delivered.
    pub proof fn lemma_hover_transition(self, pos: Vec2, to: Seq<usize>)
        requires
            self.countable(),
            self.hover_path.len() > 0,
            self.valid_path(self.hover_path),
            self.hit(pos) == Some(to),
        ensures
            to != self.hover_path ==> self.pointer_passes(pos) == seq![
                Delivered {
                    path: self.hover_path,
                    kind: EventKind::PointerLeave,
                    phase: Phase::Target,
                },
                Delivered {
                    path: to,
                    kind: EventKind::PointerMove { pos },
                    phase: Phase::Capture,
                },
                Delivered { path: to, kind: EventKind::PointerMove { pos }, phase: Phase::Target },
                Delivered { path: to, kind: EventKind::PointerMove { pos }, phase: Phase::Bubble },
            ],
            to == self.hover_path ==> self.pointer_passes(pos) == seq![
                Delivered {
                    path: to,
                    kind: EventKind::PointerMove { pos },
                    phase: Phase::Capture,
                },
                Delivered { path: to, kind: EventKind::PointerMove { pos }, phase: Phase::Target },
                Delivered { path: to, kind: EventKind::PointerMove { pos }, phase: Phase::Bubble },
            ],
            self.hover_after(pos) == to,
    {
        self.lemma_hit_valid(pos);
        let leave = passes(self.hover_path, EventKind::PointerLeave, true);
        let moved = passes(to, EventKind::PointerMove { pos }, false);
        if to != self.hover_path {
            assert(leave + moved =~= seq![leave[0], moved[0], moved[1], moved[2]]);
        }
    }

    /// The focus goes from one node to another: the node that had it is
    /// told once that it lost it, then the other that it has it, each in
    /// the target pass alone, and the other has the focus afterwards.
    pub proof fn lemma_focus_change(self, focused: Seq<usize>, to: Seq<usize>)
        requires
            focused.len() > 0,
            to.len() > 0,
            to != focused,
            self.valid_path(focused),
            self.valid_path(to),
        ensures
            self.focus_passes(focused, Some(to)) == seq![
                Delivered { path: focused, kind: EventKind::FocusOut, phase: Phase::Target },
                Delivered { path: to, kind: EventKind::FocusIn, phase: Phase::Target },
            ],
            self.focus_after(focused, Some(to)) == to,
    {
        let out = passes(focused, EventKind::FocusOut, true);
        let into = passes(to, EventKind::FocusIn, true);
        assert(out + into =~= seq![out[0], into[0]]);
    }

    /// A press of a button on the hovered node is delivered in its three
    /// passes before any change of focus is carried out, and the change
    /// that is carried out then is the one that the last handler of the
    /// press left waiting. Where that is a request for another node than
    /// the focused one, the three passes of the press are followed by
    /// telling the focused node that it lost the focus and the other that
    /// it has it, and the other has the focus afterwards. The first
    /// handler of the press is handed the focus manager as it was before
    /// the press.
    pub proof fn lemma_focus_follows_press(
        self,
        pressed: Tree<W>,
        button: crate::windowing::events::MouseButton,
        focus: FocusState,
        to: Seq<usize>,
        runs: Seq<Seq<Handling<W>>>,
    )
        requires
            self.hover_path.len() > 0,
            self.valid_path(self.hover_path),
            focus.focused.len() > 0,
            to.len() > 0,
            to != focus.focused,
            self.valid_path(focus.focused),
            self.valid_path(to),
            self.ran(
                pressed,
                self.event_passes(
                    WindowEvent::MouseInput { state: ElementState::Pressed, button },
                    focus.focused,
                ),
                focus,
                runs,
            ),
            focus_left(focus, runs).requested == Some(to),
        ensures
            ({
                let press = WindowEvent::MouseInput { state: ElementState::Pressed, button };
                let down = EventKind::PointerDown { button, pos: Vec2::spec_zero() };
                &&& asked(press, focus, runs) == Some(to)
                &&& self.event_passes(press, focus.focused) + self.focus_passes(
                    focus.focused,
                    asked(press, focus, runs),
                ) == seq![
                    Delivered { path: self.hover_path, kind: down, phase: Phase::Capture },
                    Delivered { path: self.hover_path, kind: down, phase: Phase::Target },
                    Delivered { path: self.hover_path, kind: down, phase: Phase::Bubble },
                    Delivered { path: focus.focused, kind: EventKind::FocusOut, phase: Phase::Target },
                    Delivered { path: to, kind: EventKind::FocusIn, phase: Phase::Target },
                ]
                &&& self.focus_after(focus.focused, asked(press, focus, runs)) == to
                &&& runs.len() == 3
                &&& runs[0].len() >= 1
                &&& runs[0][0].ctx.focus@ == focus
            }),
    {
        self.lemma_focus_change(focus.focused, to);
        let press = WindowEvent::MouseInput { state: ElementState::Pressed, button };
        let down = EventKind::PointerDown { button, pos: Vec2::spec_zero() };
        let first = self.event_passes(press, focus.focused);
        let second = self.focus_passes(focus.focused, Some(to));
        assert(first =~= passes(self.hover_path, down, false));
        assert(first + second =~= seq![first[0], first[1], first[2], second[0], second[1]]);
        self.lemma_ran_hands_on(pressed, first, focus, runs);
        assert(runs.take(0) =~= Seq::<Seq<Handling<W>>>::empty());
    }

    /// A request for the path that has the focus already, left waiting by
    /// the last handler of an event, is used up without telling any node:
    /// no pass is delivered for it and the focus stays.
    pub proof fn lemma_same_focus_asked(
        self,
        event: WindowEvent,
        focus: FocusState,
        runs: Seq<Seq<Handling<W>>>,
    )
        requires
            !(event matches WindowEvent::Focused(false)),
            focus_left(focus, runs).requested == Some(focus.focused),
        ensures
            self.focus_passes(focus.focused, asked(event, focus, runs)).len() == 0,
            self.focus_after(focus.focused, asked(event, focus, runs)) == focus.focused,
    {
    }

    /// An event whose handlers ask for no change of focus, routed while
    /// none waits, moves no focus: no node is told of a change of focus,
    /// the focus stays where it was, and no change of focus waits
    /// afterwards.
    pub proof fn lemma_focus_stays(
        self,
        routed: Tree<W>,
        event: WindowEvent,
        focus: FocusState,
        runs: Seq<Seq<Handling<W>>>,
    )
        requires
            !(event matches WindowEvent::Focused(false)),
            focus.requested.is_none(),
            self.ran(routed, self.event_passes(event, focus.focused), focus, runs),
            passes_keep_request(runs),
        ensures
            asked(event, focus, runs).is_none(),
            self.focus_passes(focus.focused, asked(event, focus, runs)).len() == 0,
            self.focus_after(focus.focused, asked(event, focus, runs)) == focus.focused,
            forall|second: Seq<Seq<Handling<W>>>|
                second.len() == 0 ==> (#[trigger] focus_left(
                    without_request(focus_left(focus, runs)),
                    second,
                )).requested.is_none(),
    {
        self.lemma_ran_keeps_request(routed, self.event_passes(event, focus.focused), focus, runs);
    }

    /// Deliveries one after the other add their passes one after the
    /// other.
    pub proof fn lemma_served_twice(
        self,
        between: Tree<W>,
        after: Tree<W>,
        first: Seq<Delivered>,
        second: Seq<Delivered>,
    )
        requires
            self.served(between, first),
            between.served(after, second),
        ensures
            self.served(after, first + second),
    {
        self.lemma_unmoved_twice(between, after);
        assert(self.history + (first + second) =~= (self.history + first) + second);
    }

    /// What is delivered to a path goes by where paths lead, and that is
    /// the same in an unmoved tree.
    pub proof fn lemma_delivered_unmoved(self, after: Tree<W>, path: Seq<usize>, kind: EventKind)
        requires
            self.unmoved(after),
        ensures
            self.delivered(path, kind) == after.delivered(path, kind),
    {
        self.lemma_unmoved_keeps_paths(after, path, 0);
    }
}

impl<W: Widget> Node<W> {
    /// Finds the node that the point `pt` hits: the deepest node whose
    /// rectangle holds the point, children before the node itself, an
    /// earlier child before a later one. The path from `self` to that node
    /// is put in front of `path`.
    pub fn hittest(&self, pt: Vec2, path: &mut Vec<usize>) -> (hit: bool)
        ensures
            hit == self@.hit(pt).is_some(),
            hit ==> final(path)@ == self@.hit(pt).unwrap() + old(path)@,
            !hit ==> final(path)@ == old(path)@,
        decreases self,
    {
        if !self.layout_rect.contains(pt) {
            return false;
        }
        proof {
            self.lemma_view();
        }
        let n = self.children.len();
        let mut i: usize = 0;
        while i < n
            invariant
                i <= n,
                n == self.children@.len(),
                n == self@.children.len(),
                self@.layout_rect.spec_contains(pt),
                path@ == old(path)@,
                forall|j: int|
                    0 <= j < n ==> #[trigger] self@.children[j] == self.children@[j]@,
                forall|j: int| 0 <= j < i ==> (#[trigger] self@.children[j]).hit(pt).is_none(),
                self@.hit_from(pt, 0) == self@.hit_from(pt, i as int),
            decreases n - i,
        {
            assert(decreases_to!(self.children => self.children[i as int]));
            let child = &self.children[i];
            if child.hittest(pt, path) {
                path.insert(0, i);
                proof {
                    let found = self@.children[i as int].hit(pt).unwrap();
                    assert(self@.hit_from(pt, i as int) == i);
                    assert(self@.hit(pt).unwrap() =~= seq![i] + found);
                    assert(path@ =~= (seq![i] + found) + old(path)@);
                }
                return true;
            }
            i += 1;
        }
        proof {
            assert(self@.hit_from(pt, n as int) == n);
            assert(self@.hit(pt) == Some(Seq::<usize>::empty()));
            assert(path@ =~= Seq::<usize>::empty() + old(path)@);
        }
        true
    }

    /// Whether `path` leads from `self` to a node.
    pub fn is_valid_path(&self, path: &[usize]) -> (valid: bool)
        ensures
            valid == self@.valid_path(path@),
    {
        let mut node = self;
        let mut depth: usize = 0;
        while depth < path.len()
            invariant
                depth <= path.len(),
                self@.valid_path(path@) == node@.valid_from(path@, depth as int),
            decreases path.len() - depth,
        {
            proof {
                node.lemma_view();
            }
            let index = path[depth];
            if index >= node.children.len() {
                return false;
            }
            node = &node.children[index];
            depth += 1;
        }
        true
    }

    /// Runs the widget's handler on this node, with the node as the
    /// running subscriber.
    fn handle<'r>(
        &mut self,
        ctx: &mut EventCtx,
        ev: &EventKind,
        rt: &mut Runtime<W::Value>,
    )
        ensures
            old(self)@.handled(final(self)@),
            exists|run: Handling<'r, W>|
                {
                    &&& #[trigger] old(self)@.handled_by(final(self)@, *ev, *old(ctx), run)
                    &&& *final(run.widget) == run.after
                    &&& *final(run.ctx) == run.left
                    &&& *final(run.rt) == run.rt_left
                    &&& *final(ctx) == run.left
                    &&& run.keeps_stack() ==> final(rt).stack() == old(rt).stack()
                },
    {
        proof {
            self.lemma_view();
        }
        let ghost s0 = rt.stack();
        ctx.node_layout = self.layout_rect;
        let scope = ScopedNodeContext::new(rt, self.id);
        let ghost before = self.widget;
        let ghost seen = *ctx;
        let ghost begun = *rt;
        let ghost id = self.id;
        self.widget.event(ctx, ev, rt);
        let ghost after = self.widget;
        let ghost left = *ctx;
        let ghost rt_left = *rt;
        scope.exit(rt);
        if ctx.layout_requested {
            self.dirty.self_dirty = true;
            self.dirty.child_dirty = true;
        }
        self.dirty.paint_dirty = true;
        proof {
            self.lemma_view();
            lemma_scope_restores(s0, Subscriber::Node(id));
            assert(self@.children =~= old(self)@.children);
            let (w, c, r) = choose|w: &mut W, c: &mut EventCtx, r: &mut Runtime<W::Value>|
                {
                    &&& *w == before
                    &&& *final(w) == after
                    &&& *c == seen
                    &&& *final(c) == left
                    &&& *r == begun
                    &&& *final(r) == rt_left
                    &&& r.stack().len() > 0
                    &&& r.stack().last() == Subscriber::Node(id)
                    &&& #[trigger] call_ensures(W::event, (w, c, ev, r), ())
                };
            let run = Handling { widget: w, ctx: c, rt: r, after, left, rt_left };
            assert(old(self)@.handled_by(self@, *ev, *old(ctx), run));
        }
    }

    /// Runs one pass of a delivery on the part of `path` from `depth` on.
    /// The capture pass runs the handlers from this node down to the target
    /// and goes no further down once a handler has stopped it. The target
    /// pass runs the handler of the target alone. The bubble pass runs the
    /// handlers from the target up to this node and goes no further up once
    /// a handler has stopped it.
    fn dispatch<'r>(
        &mut self,
        path: &[usize],
        depth: usize,
        phase: Phase,
        ev: &EventKind,
        ctx: &mut EventCtx,
        rt: &mut Runtime<W::Value>,
    )
        requires
            depth <= path@.len(),
            old(self)@.valid_from(path@, depth as int),
        ensures
            old(self)@.routed(final(self)@, path@, depth as int),
            phase == Phase::Capture ==> final(self)@.dirty.paint_dirty,
            phase != Phase::Capture ==> final(self)@.node_from(
                path@,
                depth as int,
            ).dirty.paint_dirty,
            exists|runs: Seq<Handling<'r, W>>|
                {
                    &&& #[trigger] old(self)@.passed(
                        final(self)@,
                        path@,
                        depth as int,
                        phase,
                        *ev,
                        *old(ctx),
                        runs,
                    )
                    &&& runs.len() >= 1
                    &&& *final(ctx) == runs.last().left
                    &&& forall|k: int|
                        0 <= k < runs.len() ==> {
                            &&& *final((#[trigger] runs[k]).widget) == runs[k].after
                            &&& *final(runs[k].ctx) == runs[k].left
                            &&& *final(runs[k].rt) == runs[k].rt_left
                        }
                    &&& pass_keeps_stack(runs) ==> final(rt).stack() == old(rt).stack()
                },
        decreases path@.len() - depth,
    {
        let ghost before = self@;
        let ghost seen = *ctx;
        let ghost s0 = rt.stack();
        proof {
            self.lemma_view();
        }
        let is_target = depth == path.len();
        if is_target {
            self.handle(ctx, ev, rt);
            proof {
                let run = choose|run: Handling<'r, W>|
                    {
                        &&& #[trigger] before.handled_by(self@, *ev, seen, run)
                        &&& *final(run.widget) == run.after
                        &&& *final(run.ctx) == run.left
                        &&& *final(run.rt) == run.rt_left
                        &&& *ctx == run.left
                        &&& run.keeps_stack() ==> rt.stack() == s0
                    };
                let runs = Seq::empty().push(run);
                assert(runs[0] == run);
                assert(before.passed(self@, path@, depth as int, phase, *ev, seen, runs));
            }
            return ;
        }
        let idx = path[depth];
        match phase {
            Phase::Capture => {
                self.handle(ctx, ev, rt);
                proof {
                    self.lemma_view();
                }
                let ghost mid = self@;
                let ghost first_left = *ctx;
                let ghost s1 = rt.stack();
                if ctx.is_stopped() {
                    proof {
                        before.children[idx as int].lemma_routed_same(path@, depth + 1);
                        let run = choose|run: Handling<'r, W>|
                            {
                                &&& #[trigger] before.handled_by(mid, *ev, seen, run)
                                &&& *final(run.widget) == run.after
                                &&& *final(run.ctx) == run.left
                                &&& *final(run.rt) == run.rt_left
                                &&& first_left == run.left
                                &&& run.keeps_stack() ==> s1 == s0
                            };
                        let runs = Seq::empty().push(run);
                        assert(runs[0] == run);
                        assert(before.captured(self@, path@, depth as int, *ev, seen, runs));
                        assert(before.passed(self@, path@, depth as int, phase, *ev, seen, runs));
                    }
                    return ;
                }
                let child = &mut self.children[idx];
                let ghost under = child@;
                child.dispatch(path, depth + 1, phase, ev, ctx, rt);
                let ghost under_now = child@;
                proof {
                    self.lemma_view();
                    assert(before.children[idx as int].routed(
                        self@.children[idx as int],
                        path@,
                        depth + 1,
                    ));
                    let run = choose|run: Handling<'r, W>|
                        {
                            &&& #[trigger] before.handled_by(mid, *ev, seen, run)
                            &&& *final(run.widget) == run.after
                            &&& *final(run.ctx) == run.left
                            &&& *final(run.rt) == run.rt_left
                            &&& first_left == run.left
                            &&& run.keeps_stack() ==> s1 == s0
                        };
                    let below = choose|runs: Seq<Handling<'r, W>>|
                        {
                            &&& #[trigger] under.captured(under_now, path@, depth + 1, *ev, first_left, runs)
                            &&& runs.len() >= 1
                            &&& *ctx == runs.last().left
                            &&& forall|k: int|
                                0 <= k < runs.len() ==> {
                                    &&& *final((#[trigger] runs[k]).widget) == runs[k].after
                                    &&& *final(runs[k].ctx) == runs[k].left
                                    &&& *final(runs[k].rt) == runs[k].rt_left
                                }
                            &&& pass_keeps_stack(runs) ==> rt.stack() == s1
                        };
                    let one = Seq::empty().push(run);
                    let runs = one + below;
                    assert(one[0] == run);
                    lemma_pass_keeps(one, below);
                    assert(runs.skip(1) =~= below);
                    assert((Tree { children: before.children, ..self@ }) == mid);
                    assert(before.same_children_but(self@, idx as int));
                    assert(before.captured(self@, path@, depth as int, *ev, seen, runs));
                    assert(before.passed(self@, path@, depth as int, phase, *ev, seen, runs));
                }
            },
            Phase::Target => {
                let child = &mut self.children[idx];
                let ghost under = child@;
                child.dispatch(path, depth + 1, phase, ev, ctx, rt);
                let ghost under_now = child@;
                proof {
                    self.lemma_view();
                    let below = choose|runs: Seq<Handling<'r, W>>|
                        {
                            &&& #[trigger] under.targeted(under_now, path@, depth + 1, *ev, seen, runs)
                            &&& runs.len() >= 1
                            &&& *ctx == runs.last().left
                            &&& forall|k: int|
                                0 <= k < runs.len() ==> {
                                    &&& *final((#[trigger] runs[k]).widget) == runs[k].after
                                    &&& *final(runs[k].ctx) == runs[k].left
                                    &&& *final(runs[k].rt) == runs[k].rt_left
                                }
                            &&& pass_keeps_stack(runs) ==> rt.stack() == s0
                        };
                    assert(self@ == (Tree { children: self@.children, ..before }));
                    assert(before.same_children_but(self@, idx as int));
                    assert(before.targeted(self@, path@, depth as int, *ev, seen, below));
                    assert(before.passed(self@, path@, depth as int, phase, *ev, seen, below));
                }
            },
            Phase::Bubble => {
                let child = &mut self.children[idx];
                let ghost under = child@;
                child.dispatch(path, depth + 1, phase, ev, ctx, rt);
                let ghost under_now = child@;
                let ghost below_left = *ctx;
                let ghost s1 = rt.stack();
                proof {
                    self.lemma_view();
                }
                let ghost risen = self@;
                if ctx.is_stopped() {
                    proof {
                        let below = choose|runs: Seq<Handling<'r, W>>|
                            {
                                &&& #[trigger] under.bubbled(under_now, path@, depth + 1, *ev, seen, runs)
                                &&& runs.len() >= 1
                                &&& below_left == runs.last().left
                                &&& forall|k: int|
                                    0 <= k < runs.len() ==> {
                                        &&& *final((#[trigger] runs[k]).widget) == runs[k].after
                                        &&& *final(runs[k].ctx) == runs[k].left
                                        &&& *final(runs[k].rt) == runs[k].rt_left
                                    }
                                &&& pass_keeps_stack(runs) ==> s1 == s0
                            };
                        assert(self@ == (Tree { children: self@.children, ..before }));
                        assert(before.same_children_but(self@, idx as int));
                        assert(before.bubbled(self@, path@, depth as int, *ev, seen, below));
                        assert(before.passed(self@, path@, depth as int, phase, *ev, seen, below));
                    }
                    return ;
                }
                self.handle(ctx, ev, rt);
                proof {
                    self.lemma_view();
                    assert(self@.children[idx as int] == risen.children[idx as int]);
                    let below = choose|runs: Seq<Handling<'r, W>>|
                        {
                            &&& #[trigger] under.bubbled(under_now, path@, depth + 1, *ev, seen, runs)
                            &&& runs.len() >= 1
                            &&& below_left == runs.last().left
                            &&& forall|k: int|
                                0 <= k < runs.len() ==> {
                                    &&& *final((#[trigger] runs[k]).widget) == runs[k].after
                                    &&& *final(runs[k].ctx) == runs[k].left
                                    &&& *final(runs[k].rt) == runs[k].rt_left
                                }
                            &&& pass_keeps_stack(runs) ==> s1 == s0
                        };
                    let run = choose|run: Handling<'r, W>|
                        {
                            &&& #[trigger] risen.handled_by(self@, *ev, below_left, run)
                            &&& *final(run.widget) == run.after
                            &&& *final(run.ctx) == run.left
                            &&& *final(run.rt) == run.rt_left
                            &&& *ctx == run.left
                            &&& run.keeps_stack() ==> rt.stack() == s1
                        };
                    let one = Seq::empty().push(run);
                    let runs = below.push(run);
                    assert(one[0] == run);
                    assert(runs =~= below + one);
                    lemma_pass_keeps(below, one);
                    assert(runs.drop_last() =~= below);
                    assert(risen == (Tree { children: self@.children, ..before }));
                    assert(before.same_children_but(self@, idx as int));
                    assert(before.bubbled(self@, path@, depth as int, *ev, seen, runs));
                    assert(before.passed(self@, path@, depth as int, phase, *ev, seen, runs));
                }
            },
        }
    }

    /// Runs one pass of a delivery from the root and records it. The
    /// handlers are handed the focus manager in their context, and it is
    /// afterwards what the last of them left.
    fn run_pass<'r>(
        &mut self,
        path: &[usize],
        phase: Phase,
        kind: EventKind,
        focus: &mut FocusManager,
        rt: &mut Runtime<W::Value>,
    )
        requires
            old(self)@.valid_path(path@),
        ensures
            old(self)@.routed(
                Tree { history: old(self)@.history, ..final(self)@ },
                path@,
                0,
            ),
            final(self)@.history == old(self)@.history.push(
                Delivered { path: path@, kind, phase },
            ),
            phase == Phase::Capture ==> final(self)@.dirty.paint_dirty,
            phase != Phase::Capture ==> final(self)@.node_at(path@).dirty.paint_dirty,
            exists|runs: Seq<Handling<'r, W>>|
                {
                    &&& #[trigger] old(self)@.pass_ran(
                        final(self)@,
                        Delivered { path: path@, kind, phase },
                        old(focus)@,
                        runs,
                    )
                    &&& forall|k: int|
                        0 <= k < runs.len() ==> {
                            &&& *final((#[trigger] runs[k]).widget) == runs[k].after
                            &&& *final(runs[k].ctx) == runs[k].left
                            &&& *final(runs[k].rt) == runs[k].rt_left
                        }
                    &&& final(focus)@ == runs.last().left.focus@
                    &&& pass_keeps_stack(runs) ==> final(rt).stack() == old(rt).stack()
                },
    {
        let ghost start = self@;
        let ghost f0 = focus@;
        let ghost s0 = rt.stack();
        let modifiers = focus.modifiers();
        let mut held = FocusManager::default();
        std::mem::swap(focus, &mut held);
        let mut ctx = EventCtx::new(
            phase,
            held,
            path,
            Rect::new(Vec2::zero(), Vec2::zero()),
            modifiers,
        );
        let ghost seen = ctx;
        self.dispatch(path, 0, phase, &kind, &mut ctx, rt);
        let ghost left = ctx;
        std::mem::swap(focus, &mut ctx.focus);
        let ghost routed = self@;
        self.history = Ghost(self.history@.push(Delivered { path: path@, kind, phase }));
        proof {
            self.lemma_view();
            assert((Tree { history: old(self)@.history, ..self@ }) == routed);
            let runs = choose|runs: Seq<Handling<'r, W>>|
                {
                    &&& #[trigger] start.passed(routed, path@, 0, phase, kind, seen, runs)
                    &&& runs.len() >= 1
                    &&& left == runs.last().left
                    &&& forall|k: int|
                        0 <= k < runs.len() ==> {
                            &&& *final((#[trigger] runs[k]).widget) == runs[k].after
                            &&& *final(runs[k].ctx) == runs[k].left
                            &&& *final(runs[k].rt) == runs[k].rt_left
                        }
                    &&& pass_keeps_stack(runs) ==> rt.stack() == s0
                };
            let pass = Delivered { path: path@, kind, phase };
            start.lemma_passed_bare(routed, path@, 0, phase, kind, seen, runs);
            assert(self@.bare() == routed.bare());
            assert(begins(seen, pass, f0));
            assert(start.pass_ran(self@, pass, f0, runs));
        }
    }

    /// Delivers `kind` to the node that `path` leads to: in its three
    /// passes, or in the target pass alone where the event concerns the
    /// target only.
    pub fn send_to_path<'r>(
        &mut self,
        path: &[usize],
        kind: EventKind,
        focus: &mut FocusManager,
        rt: &mut Runtime<W::Value>,
    )
        requires
            old(self)@.valid_path(path@),
        ensures
            old(self)@.routed(
                Tree { history: old(self)@.history, ..final(self)@ },
                path@,
                0,
            ),
            final(self)@.history == old(self)@.history + passes(path@, kind, target_only(kind)),
            final(self)@.node_at(path@).dirty.paint_dirty,
            !target_only(kind) ==> final(self)@.dirty.paint_dirty,
            exists|runs: Seq<Seq<Handling<'r, W>>>|
                {
                    &&& #[trigger] old(self)@.ran(
                        final(self)@,
                        passes(path@, kind, target_only(kind)),
                        old(focus)@,
                        runs,
                    )
                    &&& forall|i: int, k: int|
                        0 <= i < runs.len() && 0 <= k < runs[i].len() ==> {
                            &&& *final((#[trigger] runs[i][k]).widget) == runs[i][k].after
                            &&& *final(runs[i][k].ctx) == runs[i][k].left
                            &&& *final(runs[i][k].rt) == runs[i][k].rt_left
                        }
                    &&& final(focus)@ == focus_left(old(focus)@, runs)
                    &&& passes_keep_stack(runs) ==> final(rt).stack() == old(rt).stack()
                },
    {
        let ghost start = self@;
        let ghost f0 = focus@;
        let ghost s0 = rt.stack();
        if target_only(kind) {
            self.run_pass(path, Phase::Target, kind, focus, rt);
            proof {
                assert(self@.history =~= start.history + passes(path@, kind, true));
                let pass = Delivered { path: path@, kind, phase: Phase::Target };
                let only = choose|runs: Seq<Handling<'r, W>>|
                    {
                        &&& #[trigger] start.pass_ran(self@, pass, f0, runs)
                        &&& forall|k: int|
                            0 <= k < runs.len() ==> {
                                &&& *final((#[trigger] runs[k]).widget) == runs[k].after
                                &&& *final(runs[k].ctx) == runs[k].left
                                &&& *final(runs[k].rt) == runs[k].rt_left
                            }
                        &&& focus@ == runs.last().left.focus@
                        &&& pass_keeps_stack(runs) ==> rt.stack() == s0
                    };
                start.lemma_ran_one(self@, pass, f0, only);
                assert(passes(path@, kind, true) =~= seq![pass]);
                let all = seq![only];
                assert(all[0] == only);
                assert(start.ran(self@, passes(path@, kind, true), f0, all));
            }
        } else {
            self.run_pass(path, Phase::Capture, kind, focus, rt);
            let ghost first = self@;
            let ghost f1 = focus@;
            let ghost s1 = rt.stack();
            let ghost captured = Tree { history: start.history, ..self@ };
            proof {
                start.lemma_routed_keeps_paths(captured, path@, 0, path@, 0);
            }
            self.run_pass(path, Phase::Target, kind, focus, rt);
            let ghost second = self@;
            let ghost f2 = focus@;
            let ghost s2 = rt.stack();
            let ghost targeted = Tree { history: start.history, ..self@ };
            proof {
                let step = Tree { history: captured.history.push(
                    Delivered { path: path@, kind, phase: Phase::Capture },
                ), ..targeted };
                assert((Tree { history: start.history, ..step }) == targeted);
                Self::lemma_rehistory(captured, targeted, start.history, path@);
                start.lemma_routed_twice(captured, targeted, path@, 0);
                start.lemma_routed_keeps_paths(targeted, path@, 0, path@, 0);
            }
            self.run_pass(path, Phase::Bubble, kind, focus, rt);
            let ghost bubbled = Tree { history: start.history, ..self@ };
            proof {
                Self::lemma_rehistory(targeted, bubbled, start.history, path@);
                start.lemma_routed_twice(targeted, bubbled, path@, 0);
                assert(self@.history =~= start.history + passes(path@, kind, false));
                let down = Delivered { path: path@, kind, phase: Phase::Capture };
                let at = Delivered { path: path@, kind, phase: Phase::Target };
                let up = Delivered { path: path@, kind, phase: Phase::Bubble };
                let down_runs = choose|runs: Seq<Handling<'r, W>>|
                    {
                        &&& #[trigger] start.pass_ran(first, down, f0, runs)
                        &&& forall|k: int|
                            0 <= k < runs.len() ==> {
                                &&& *final((#[trigger] runs[k]).widget) == runs[k].after
                                &&& *final(runs[k].ctx) == runs[k].left
                                &&& *final(runs[k].rt) == runs[k].rt_left
                            }
                        &&& f1 == runs.last().left.focus@
                        &&& pass_keeps_stack(runs) ==> s1 == s0
                    };
                let at_runs = choose|runs: Seq<Handling<'r, W>>|
                    {
                        &&& #[trigger] first.pass_ran(second, at, f1, runs)
                        &&& forall|k: int|
                            0 <= k < runs.len() ==> {
                                &&& *final((#[trigger] runs[k]).widget) == runs[k].after
                                &&& *final(runs[k].ctx) == runs[k].left
                                &&& *final(runs[k].rt) == runs[k].rt_left
                            }
                        &&& f2 == runs.last().left.focus@
                        &&& pass_keeps_stack(runs) ==> s2 == s1
                    };
                let up_runs = choose|runs: Seq<Handling<'r, W>>|
                    {
                        &&& #[trigger] second.pass_ran(self@, up, f2, runs)
                        &&& forall|k: int|
                            0 <= k < runs.len() ==> {
                                &&& *final((#[trigger] runs[k]).widget) == runs[k].after
                                &&& *final(runs[k].ctx) == runs[k].left
                                &&& *final(runs[k].rt) == runs[k].rt_left
                            }
                        &&& focus@ == runs.last().left.focus@
                        &&& pass_keeps_stack(runs) ==> rt.stack() == s2
                    };
                start.lemma_ran_one(first, down, f0, down_runs);
                first.lemma_ran_one(second, at, f1, at_runs);
                second.lemma_ran_one(self@, up, f2, up_runs);
                assert(seq![down_runs][0] == down_runs);
                assert(seq![at_runs][0] == at_runs);
                assert(seq![up_runs][0] == up_runs);
                start.lemma_ran_twice(
                    first,
                    second,
                    seq![down],
                    seq![at],
                    f0,
                    seq![down_runs],
                    seq![at_runs],
                );
                lemma_passes_keep(seq![down_runs], seq![at_runs]);
                start.lemma_ran_twice(
                    second,
                    self@,
                    seq![down] + seq![at],
                    seq![up],
                    f0,
                    seq![down_runs] + seq![at_runs],
                    seq![up_runs],
                );
                lemma_passes_keep(seq![down_runs] + seq![at_runs], seq![up_runs]);
                assert(passes(path@, kind, false) =~= seq![down] + seq![at] + seq![up]);
                let all = seq![down_runs] + seq![at_runs] + seq![up_runs];
                assert(start.ran(self@, passes(path@, kind, false), f0, all));
            }
        }
    }

    /// A delivery goes by what the trees hold apart from the history of
    /// the root.
    proof fn lemma_rehistory(
        pre: Tree<W>,
        post: Tree<W>,
        history: Seq<Delivered>,
        path: Seq<usize>,
    )
        requires
            exists|h: Seq<Delivered>|
                (Tree { history: h, ..pre }).routed(Tree { history: h, ..post }, path, 0),
        ensures
            (Tree { history, ..pre }).routed(Tree { history, ..post }, path, 0),
    {
    }
}

/// The change of focus that waits when the event itself has been dealt
/// with: the one that waited then, or, where the window lost the input
/// focus, the request to give the focus up.
pub open spec fn waiting(event: WindowEvent, requested: Option<Seq<usize>>) -> Option<Seq<usize>> {
    match event {
        WindowEvent::Focused(false) => Some(Seq::empty()),
        _ => requested,
    }
}

/// The modifier keys that are held down after `event`.
pub open spec fn held_after(event: WindowEvent, held: Modifiers) -> Modifiers {
    match event {
        WindowEvent::ModifiersChanged(modifiers) => modifiers,
        _ => held,
    }
}

/// `focus` with no change of focus waiting.
pub open spec fn without_request(focus: FocusState) -> FocusState {
    FocusState { requested: None, ..focus }
}

/// The change of focus that is carried out once the passes of `event`
/// have run as `runs` tells, from a focus manager that held `focus`: the
/// one that waits in what the last handler left of the focus manager, or
/// in `focus` where the event delivered nothing.
pub open spec fn asked<W: Widget>(
    event: WindowEvent,
    focus: FocusState,
    runs: Seq<Seq<Handling<W>>>,
) -> Option<Seq<usize>> {
    waiting(event, focus_left(focus, runs).requested)
}

impl<W: Widget> Node<W> {
    /// Delivers `kind` to the node that `path` leads to. Where the path
    /// leads to no node, nothing is delivered.
    pub fn deliver<'r>(
        &mut self,
        path: &[usize],
        kind: EventKind,
        focus: &mut FocusManager,
        rt: &mut Runtime<W::Value>,
    )
        ensures
            old(self)@.served(final(self)@, old(self)@.delivered(path@, kind)),
            old(self)@.delivered(path@, kind).len() == 0 ==> {
                &&& *final(focus) == *old(focus)
                &&& *final(rt) == *old(rt)
            },
            old(self)@.valid_path(path@) ==> final(self)@.node_at(path@).dirty.paint_dirty,
            old(self)@.valid_path(path@) && !target_only(kind) ==> final(self)@.dirty.paint_dirty,
            exists|runs: Seq<Seq<Handling<'r, W>>>|
                {
                    &&& #[trigger] old(self)@.ran(
                        final(self)@,
                        old(self)@.delivered(path@, kind),
                        old(focus)@,
                        runs,
                    )
                    &&& forall|i: int, k: int|
                        0 <= i < runs.len() && 0 <= k < runs[i].len() ==> {
                            &&& *final((#[trigger] runs[i][k]).widget) == runs[i][k].after
                            &&& *final(runs[i][k].ctx) == runs[i][k].left
                            &&& *final(runs[i][k].rt) == runs[i][k].rt_left
                        }
                    &&& final(focus)@ == focus_left(old(focus)@, runs)
                    &&& passes_keep_stack(runs) ==> final(rt).stack() == old(rt).stack()
                },
    {
        let ghost start = self@;
        let ghost f0 = focus@;
        let ghost s0 = rt.stack();
        if self.is_valid_path(path) {
            self.send_to_path(path, kind, focus, rt);
            proof {
                start.lemma_routed_unmoved(Tree { history: start.history, ..self@ }, path@, 0);
                let all = choose|runs: Seq<Seq<Handling<'r, W>>>|
                    {
                        &&& #[trigger] start.ran(
                            self@,
                            passes(path@, kind, target_only(kind)),
                            f0,
                            runs,
                        )
                        &&& forall|i: int, k: int|
                            0 <= i < runs.len() && 0 <= k < runs[i].len() ==> {
                                &&& *final((#[trigger] runs[i][k]).widget) == runs[i][k].after
                                &&& *final(runs[i][k].ctx) == runs[i][k].left
                                &&& *final(runs[i][k].rt) == runs[i][k].rt_left
                            }
                        &&& focus@ == focus_left(f0, runs)
                        &&& passes_keep_stack(runs) ==> rt.stack() == s0
                    };
                assert(start.ran(self@, start.delivered(path@, kind), f0, all));
            }
        } else {
            proof {
                start.lemma_unmoved_same();
                assert(self@.history =~= start.history + Seq::<Delivered>::empty());
                start.lemma_ran_nothing(self@, f0);
                let none = choose|runs: Seq<Seq<Handling<'r, W>>>|
                    runs.len() == 0 && #[trigger] start.ran(self@, Seq::empty(), f0, runs);
                assert(start.ran(self@, start.delivered(path@, kind), f0, none));
            }
        }
    }

    /// Tells the hovered node that the pointer has left it, and forgets
    /// that it was hovered. Without a hovered node nothing happens.
    pub fn flush_pointer_leave<'r>(
        &mut self,
        focus: &mut FocusManager,
        rt: &mut Runtime<W::Value>,
    )
        ensures
            old(self)@.unmoved(final(self)@),
            final(self)@.history == old(self)@.history + old(self)@.leave_passes(),
            final(self)@.hover_path == Seq::<usize>::empty(),
            old(self)@.leave_passes().len() == 0 ==> {
                &&& *final(focus) == *old(focus)
                &&& *final(rt) == *old(rt)
            },
            exists|runs: Seq<Seq<Handling<'r, W>>>|
                {
                    &&& #[trigger] old(self)@.ran(
                        final(self)@,
                        old(self)@.leave_passes(),
                        old(focus)@,
                        runs,
                    )
                    &&& forall|i: int, k: int|
                        0 <= i < runs.len() && 0 <= k < runs[i].len() ==> {
                            &&& *final((#[trigger] runs[i][k]).widget) == runs[i][k].after
                            &&& *final(runs[i][k].ctx) == runs[i][k].left
                            &&& *final(runs[i][k].rt) == runs[i][k].rt_left
                        }
                    &&& final(focus)@ == focus_left(old(focus)@, runs)
                    &&& passes_keep_stack(runs) ==> final(rt).stack() == old(rt).stack()
                },
    {
        let ghost start = self@;
        let ghost f0 = focus@;
        let ghost s0 = rt.stack();
        proof {
            self.lemma_view();
        }
        if self.hover_path.len() == 0 {
            proof {
                start.lemma_unmoved_same();
                assert(self@.history =~= start.history + Seq::<Delivered>::empty());
                assert(self@.hover_path =~= Seq::<usize>::empty());
                start.lemma_ran_nothing(self@, f0);
                let none = choose|runs: Seq<Seq<Handling<'r, W>>>|
                    runs.len() == 0 && #[trigger] start.ran(self@, Seq::empty(), f0, runs);
                assert(start.ran(self@, start.leave_passes(), f0, none));
            }
            return ;
        }
        let hovered = slice_to_vec(self.hover_path.as_slice());
        self.deliver(hovered.as_slice(), EventKind::PointerLeave, focus, rt);
        let ghost left = self@;
        self.hover_path.clear();
        proof {
            self.lemma_view();
            left.lemma_unmoved_same();
            assert(left.unmoved(self@));
            start.lemma_unmoved_twice(left, self@);
            let all = choose|runs: Seq<Seq<Handling<'r, W>>>|
                {
                    &&& #[trigger] start.ran(
                        left,
                        start.delivered(hovered@, EventKind::PointerLeave),
                        f0,
                        runs,
                    )
                    &&& forall|i: int, k: int|
                        0 <= i < runs.len() && 0 <= k < runs[i].len() ==> {
                            &&& *final((#[trigger] runs[i][k]).widget) == runs[i][k].after
                            &&& *final(runs[i][k].ctx) == runs[i][k].left
                            &&& *final(runs[i][k].rt) == runs[i][k].rt_left
                        }
                    &&& focus@ == focus_left(f0, runs)
                    &&& passes_keep_stack(runs) ==> rt.stack() == s0
                };
            start.lemma_ran_bare(left, self@, start.leave_passes(), f0, all);
        }
    }

    /// Deals with the pointer being at `pos`: the node that it is over
    /// now becomes the hovered one, and is told of the move after the node
    /// that was hovered, if that is another one, was told that the
    /// pointer has left it. The node that is told of the move and the root
    /// are to be painted again.
    pub fn handle_pointer_move<'r>(
        &mut self,
        pos: Vec2,
        focus: &mut FocusManager,
        rt: &mut Runtime<W::Value>,
    )
        ensures
            old(self)@.unmoved(final(self)@),
            final(self)@.history == old(self)@.history + old(self)@.pointer_passes(pos),
            final(self)@.hover_path == old(self)@.hover_after(pos),
            old(self)@.pointer_passes(pos).len() == 0 ==> {
                &&& *final(focus) == *old(focus)
                &&& *final(rt) == *old(rt)
            },
            old(self)@.hit(pos).is_some() ==> {
                &&& final(self)@.dirty.paint_dirty
                &&& final(self)@.node_at(old(self)@.hit(pos).unwrap()).dirty.paint_dirty
            },
            exists|runs: Seq<Seq<Handling<'r, W>>>|
                {
                    &&& #[trigger] old(self)@.ran(
                        final(self)@,
                        old(self)@.pointer_passes(pos),
                        old(focus)@,
                        runs,
                    )
                    &&& forall|i: int, k: int|
                        0 <= i < runs.len() && 0 <= k < runs[i].len() ==> {
                            &&& *final((#[trigger] runs[i][k]).widget) == runs[i][k].after
                            &&& *final(runs[i][k].ctx) == runs[i][k].left
                            &&& *final(runs[i][k].rt) == runs[i][k].rt_left
                        }
                    &&& final(focus)@ == focus_left(old(focus)@, runs)
                    &&& passes_keep_stack(runs) ==> final(rt).stack() == old(rt).stack()
                },
    {
        let ghost start = self@;
        let ghost f0 = focus@;
        let ghost s0 = rt.stack();
        proof {
            self.lemma_view();
        }
        let mut new_path: Vec<usize> = Vec::new();
        if !self.hittest(pos, &mut new_path) {
            self.flush_pointer_leave(focus, rt);
            proof {
                let all = choose|runs: Seq<Seq<Handling<'r, W>>>|
                    {
                        &&& #[trigger] start.ran(
                            self@,
                            start.leave_passes(),
                            f0,
                            runs,
                        )
                        &&& forall|i: int, k: int|
                            0 <= i < runs.len() && 0 <= k < runs[i].len() ==> {
                                &&& *final((#[trigger] runs[i][k]).widget) == runs[i][k].after
                                &&& *final(runs[i][k].ctx) == runs[i][k].left
                                &&& *final(runs[i][k].rt) == runs[i][k].rt_left
                            }
                        &&& focus@ == focus_left(f0, runs)
                        &&& passes_keep_stack(runs) ==> rt.stack() == s0
                    };
                assert(start.ran(self@, start.pointer_passes(pos), f0, all));
            }
            return ;
        }
        proof {
            assert(new_path@ =~= start.hit(pos).unwrap());
            self.lemma_countable();
            start.lemma_hit_valid(pos);
        }
        let kind = EventKind::PointerMove { pos };
        if same_path(self.hover_path.as_slice(), new_path.as_slice()) {
            self.deliver(new_path.as_slice(), kind, focus, rt);
            proof {
                let all = choose|runs: Seq<Seq<Handling<'r, W>>>|
                    {
                        &&& #[trigger] start.ran(
                            self@,
                            start.delivered(new_path@, kind),
                            f0,
                            runs,
                        )
                        &&& forall|i: int, k: int|
                            0 <= i < runs.len() && 0 <= k < runs[i].len() ==> {
                                &&& *final((#[trigger] runs[i][k]).widget) == runs[i][k].after
                                &&& *final(runs[i][k].ctx) == runs[i][k].left
                                &&& *final(runs[i][k].rt) == runs[i][k].rt_left
                            }
                        &&& focus@ == focus_left(f0, runs)
                        &&& passes_keep_stack(runs) ==> rt.stack() == s0
                    };
                assert(start.ran(self@, start.pointer_passes(pos), f0, all));
            }
            return ;
        }
        if self.hover_path.len() > 0 {
            let hovered = slice_to_vec(self.hover_path.as_slice());
            self.deliver(hovered.as_slice(), EventKind::PointerLeave, focus, rt);
        } else {
            proof {
                start.lemma_unmoved_same();
                assert(self@.history =~= start.history + Seq::<Delivered>::empty());
            }
        }
        let ghost left = self@;
        let ghost f1 = focus@;
        let ghost s1 = rt.stack();
        proof {
            start.lemma_unmoved_keeps_paths(left, new_path@, 0);
        }
        self.deliver(new_path.as_slice(), kind, focus, rt);
        let ghost moved = self@;
        proof {
            start.lemma_delivered_unmoved(left, new_path@, kind);
            start.lemma_served_twice(
                left,
                moved,
                start.leave_passes(),
                start.delivered(new_path@, kind),
            );
        }
        let ghost target = new_path@;
        self.hover_path = new_path;
        proof {
            self.lemma_view();
            moved.lemma_unmoved_same();
            assert(moved.unmoved(self@));
            start.lemma_unmoved_twice(moved, self@);
            assert(self@.children == moved.children);
            moved.lemma_node_from_children(self@, target, 0);
            assert(self@.node_at(target) == moved.node_at(target) || target.len() == 0);
            if start.hover_path.len() == 0 {
                start.lemma_ran_nothing(left, f0);
            }
            let told = choose|runs: Seq<Seq<Handling<'r, W>>>|
                {
                    &&& #[trigger] start.ran(
                        left,
                        start.leave_passes(),
                        f0,
                        runs,
                    )
                    &&& forall|i: int, k: int|
                        0 <= i < runs.len() && 0 <= k < runs[i].len() ==> {
                            &&& *final((#[trigger] runs[i][k]).widget) == runs[i][k].after
                            &&& *final(runs[i][k].ctx) == runs[i][k].left
                            &&& *final(runs[i][k].rt) == runs[i][k].rt_left
                        }
                    &&& f1 == focus_left(f0, runs)
                    &&& passes_keep_stack(runs) ==> s1 == s0
                };
            let sent = choose|runs: Seq<Seq<Handling<'r, W>>>|
                {
                    &&& #[trigger] left.ran(
                        moved,
                        left.delivered(target, kind),
                        f1,
                        runs,
                    )
                    &&& forall|i: int, k: int|
                        0 <= i < runs.len() && 0 <= k < runs[i].len() ==> {
                            &&& *final((#[trigger] runs[i][k]).widget) == runs[i][k].after
                            &&& *final(runs[i][k].ctx) == runs[i][k].left
                            &&& *final(runs[i][k].rt) == runs[i][k].rt_left
                        }
                    &&& focus@ == focus_left(f1, runs)
                    &&& passes_keep_stack(runs) ==> rt.stack() == s1
                };
            start.lemma_ran_twice(
                left,
                moved,
                start.leave_passes(),
                start.delivered(target, kind),
                f0,
                told,
                sent,
            );
            lemma_passes_keep(told, sent);
            start.lemma_ran_bare(moved, self@, start.pointer_passes(pos), f0, told + sent);
        }
    }

    /// Delivers what `event` itself has to deliver, before any change of
    /// focus, with `focused` as the focused path. Tells whether the event
    /// was dropped.
    #[verifier::rlimit(80)]
    fn deliver_event<'r>(
        &mut self,
        event: WindowEvent,
        focused: &[usize],
        focus: &mut FocusManager,
        rt: &mut Runtime<W::Value>,
    ) -> (dropped: bool)
        ensures
            dropped == old(self)@.drops(event, focused@),
            old(self)@.served(
                Tree { hover_path: old(self)@.hover_path, ..final(self)@ },
                old(self)@.event_passes(event, focused@),
            ),
            final(self)@.hover_path == old(self)@.hover_after_event(event),
            old(self)@.event_passes(event, focused@).len() == 0 ==> {
                &&& *final(focus) == *old(focus)
                &&& *final(rt) == *old(rt)
            },
            dropped ==> final(self)@ == old(self)@,
            exists|runs: Seq<Seq<Handling<'r, W>>>|
                {
                    &&& #[trigger] old(self)@.ran(
                        final(self)@,
                        old(self)@.event_passes(event, focused@),
                        old(focus)@,
                        runs,
                    )
                    &&& forall|i: int, k: int|
                        0 <= i < runs.len() && 0 <= k < runs[i].len() ==> {
                            &&& *final((#[trigger] runs[i][k]).widget) == runs[i][k].after
                            &&& *final(runs[i][k].ctx) == runs[i][k].left
                            &&& *final(runs[i][k].rt) == runs[i][k].rt_left
                        }
                    &&& final(focus)@ == focus_left(old(focus)@, runs)
                    &&& passes_keep_stack(runs) ==> final(rt).stack() == old(rt).stack()
                },
    {
        let ghost start = self@;
        let ghost f0 = focus@;
        let ghost s0 = rt.stack();
        proof {
            self.lemma_view();
            start.lemma_unmoved_same();
            assert(start.history =~= start.history + Seq::<Delivered>::empty());
        }
        match event {
            WindowEvent::CursorMoved { position } => {
                self.handle_pointer_move(position, focus, rt);
                proof {
                    let all = choose|runs: Seq<Seq<Handling<'r, W>>>|
                        {
                            &&& #[trigger] start.ran(
                                self@,
                                start.pointer_passes(position),
                                f0,
                                runs,
                            )
                            &&& forall|i: int, k: int|
                                0 <= i < runs.len() && 0 <= k < runs[i].len() ==> {
                                    &&& *final((#[trigger] runs[i][k]).widget) == runs[i][k].after
                                    &&& *final(runs[i][k].ctx) == runs[i][k].left
                                    &&& *final(runs[i][k].rt) == runs[i][k].rt_left
                                }
                            &&& focus@ == focus_left(f0, runs)
                            &&& passes_keep_stack(runs) ==> rt.stack() == s0
                        };
                    assert(start.ran(self@, start.event_passes(event, focused@), f0, all));
                }
                false
            },
            WindowEvent::CursorLeft => {
                self.flush_pointer_leave(focus, rt);
                proof {
                    let all = choose|runs: Seq<Seq<Handling<'r, W>>>|
                        {
                            &&& #[trigger] start.ran(
                                self@,
                                start.leave_passes(),
                                f0,
                                runs,
                            )
                            &&& forall|i: int, k: int|
                                0 <= i < runs.len() && 0 <= k < runs[i].len() ==> {
                                    &&& *final((#[trigger] runs[i][k]).widget) == runs[i][k].after
                                    &&& *final(runs[i][k].ctx) == runs[i][k].left
                                    &&& *final(runs[i][k].rt) == runs[i][k].rt_left
                                }
                            &&& focus@ == focus_left(f0, runs)
                            &&& passes_keep_stack(runs) ==> rt.stack() == s0
                        };
                    assert(start.ran(self@, start.event_passes(event, focused@), f0, all));
                }
                false
            },
            WindowEvent::MouseInput { state, button } => {
                if self.hover_path.len() == 0 {
                    proof {
                        start.lemma_ran_nothing(self@, f0);
                        let none = choose|runs: Seq<Seq<Handling<'r, W>>>|
                            runs.len() == 0 && #[trigger] start.ran(self@, Seq::empty(), f0, runs);
                        assert(start.ran(self@, start.event_passes(event, focused@), f0, none));
                    }
                    return true;
                }
                let kind = match state {
                    ElementState::Pressed => EventKind::PointerDown { button, pos: Vec2::zero() },
                    ElementState::Released => EventKind::PointerUp { button, pos: Vec2::zero() },
                };
                let hovered = slice_to_vec(self.hover_path.as_slice());
                self.deliver(hovered.as_slice(), kind, focus, rt);
                proof {
                    let all = choose|runs: Seq<Seq<Handling<'r, W>>>|
                        {
                            &&& #[trigger] start.ran(
                                self@,
                                start.delivered(hovered@, kind),
                                f0,
                                runs,
                            )
                            &&& forall|i: int, k: int|
                                0 <= i < runs.len() && 0 <= k < runs[i].len() ==> {
                                    &&& *final((#[trigger] runs[i][k]).widget) == runs[i][k].after
                                    &&& *final(runs[i][k].ctx) == runs[i][k].left
                                    &&& *final(runs[i][k].rt) == runs[i][k].rt_left
                                }
                            &&& focus@ == focus_left(f0, runs)
                            &&& passes_keep_stack(runs) ==> rt.stack() == s0
                        };
                    assert(start.ran(self@, start.event_passes(event, focused@), f0, all));
                }
                false
            },
            WindowEvent::MouseWheel { delta } => {
                if self.hover_path.len() == 0 {
                    proof {
                        start.lemma_ran_nothing(self@, f0);
                        let none = choose|runs: Seq<Seq<Handling<'r, W>>>|
                            runs.len() == 0 && #[trigger] start.ran(self@, Seq::empty(), f0, runs);
                        assert(start.ran(self@, start.event_passes(event, focused@), f0, none));
                    }
                    return true;
                }
                let hovered = slice_to_vec(self.hover_path.as_slice());
                self.deliver(hovered.as_slice(), EventKind::Wheel { delta }, focus, rt);
                proof {
                    let all = choose|runs: Seq<Seq<Handling<'r, W>>>|
                        {
                            &&& #[trigger] start.ran(
                                self@,
                                start.delivered(hovered@, EventKind::Wheel { delta }),
                                f0,
                                runs,
                            )
                            &&& forall|i: int, k: int|
                                0 <= i < runs.len() && 0 <= k < runs[i].len() ==> {
                                    &&& *final((#[trigger] runs[i][k]).widget) == runs[i][k].after
                                    &&& *final(runs[i][k].ctx) == runs[i][k].left
                                    &&& *final(runs[i][k].rt) == runs[i][k].rt_left
                                }
                            &&& focus@ == focus_left(f0, runs)
                            &&& passes_keep_stack(runs) ==> rt.stack() == s0
                        };
                    assert(start.ran(self@, start.event_passes(event, focused@), f0, all));
                }
                false
            },
            WindowEvent::KeyboardInput { state, key, text } => {
                if focused.len() == 0 && text.is_none() {
                    proof {
                        start.lemma_ran_nothing(self@, f0);
                        let none = choose|runs: Seq<Seq<Handling<'r, W>>>|
                            runs.len() == 0 && #[trigger] start.ran(self@, Seq::empty(), f0, runs);
                        assert(start.ran(self@, start.event_passes(event, focused@), f0, none));
                    }
                    return true;
                }
                let kind = match state {
                    ElementState::Pressed => EventKind::KeyDown { key },
                    ElementState::Released => EventKind::KeyUp { key },
                };
                self.deliver(focused, kind, focus, rt);
                let ghost keyed = self@;
                let ghost f1 = focus@;
                let ghost s1 = rt.stack();
                match text {
                    Some(ch) => {
                        let typed = EventKind::CharInput { ch };
                        self.deliver(focused, typed, focus, rt);
                        proof {
                            start.lemma_delivered_unmoved(keyed, focused@, typed);
                            start.lemma_served_twice(
                                keyed,
                                self@,
                                start.delivered(focused@, kind),
                                start.delivered(focused@, typed),
                            );
                            let keys = choose|runs: Seq<Seq<Handling<'r, W>>>|
                                {
                                    &&& #[trigger] start.ran(
                                        keyed,
                                        start.delivered(focused@, kind),
                                        f0,
                                        runs,
                                    )
                                    &&& forall|i: int, k: int|
                                        0 <= i < runs.len() && 0 <= k < runs[i].len() ==> {
                                            &&& *final((#[trigger] runs[i][k]).widget) == runs[i][k].after
                                            &&& *final(runs[i][k].ctx) == runs[i][k].left
                                            &&& *final(runs[i][k].rt) == runs[i][k].rt_left
                                        }
                                    &&& f1 == focus_left(f0, runs)
                                    &&& passes_keep_stack(runs) ==> s1 == s0
                                };
                            let chars = choose|runs: Seq<Seq<Handling<'r, W>>>|
                                {
                                    &&& #[trigger] keyed.ran(
                                        self@,
                                        keyed.delivered(focused@, typed),
                                        f1,
                                        runs,
                                    )
                                    &&& forall|i: int, k: int|
                                        0 <= i < runs.len() && 0 <= k < runs[i].len() ==> {
                                            &&& *final((#[trigger] runs[i][k]).widget) == runs[i][k].after
                                            &&& *final(runs[i][k].ctx) == runs[i][k].left
                                            &&& *final(runs[i][k].rt) == runs[i][k].rt_left
                                        }
                                    &&& focus@ == focus_left(f1, runs)
                                    &&& passes_keep_stack(runs) ==> rt.stack() == s1
                                };
                            start.lemma_ran_twice(
                                keyed,
                                self@,
                                start.delivered(focused@, kind),
                                start.delivered(focused@, typed),
                                f0,
                                keys,
                                chars,
                            );
                            lemma_passes_keep(keys, chars);
                            assert(start.ran(self@, start.event_passes(event, focused@), f0, keys + chars));
                        }
                    },
                    None => {
                        proof {
                            assert(start.delivered(focused@, kind) + Seq::<Delivered>::empty()
                                =~= start.delivered(focused@, kind));
                            let keys = choose|runs: Seq<Seq<Handling<'r, W>>>|
                                {
                                    &&& #[trigger] start.ran(
                                        self@,
                                        start.delivered(focused@, kind),
                                        f0,
                                        runs,
                                    )
                                    &&& forall|i: int, k: int|
                                        0 <= i < runs.len() && 0 <= k < runs[i].len() ==> {
                                            &&& *final((#[trigger] runs[i][k]).widget) == runs[i][k].after
                                            &&& *final(runs[i][k].ctx) == runs[i][k].left
                                            &&& *final(runs[i][k].rt) == runs[i][k].rt_left
                                        }
                                    &&& focus@ == focus_left(f0, runs)
                                    &&& passes_keep_stack(runs) ==> rt.stack() == s0
                                };
                            assert(start.ran(self@, start.event_passes(event, focused@), f0, keys));
                        }
                    },
                }
                false
            },
            WindowEvent::ImePreedit { first } => {
                match first {
                    Some(ch) => {
                        if focused.len() == 0 {
                            proof {
                                start.lemma_ran_nothing(self@, f0);
                                let none = choose|runs: Seq<Seq<Handling<'r, W>>>|
                                    runs.len() == 0 && #[trigger] start.ran(self@, Seq::empty(), f0, runs);
                                assert(start.ran(self@, start.event_passes(event, focused@), f0, none));
                            }
                            return true;
                        }
                        self.deliver(focused, EventKind::CharInput { ch }, focus, rt);
                        proof {
                            let all = choose|runs: Seq<Seq<Handling<'r, W>>>|
                                {
                                    &&& #[trigger] start.ran(
                                        self@,
                                        start.delivered(focused@, EventKind::CharInput { ch }),
                                        f0,
                                        runs,
                                    )
                                    &&& forall|i: int, k: int|
                                        0 <= i < runs.len() && 0 <= k < runs[i].len() ==> {
                                            &&& *final((#[trigger] runs[i][k]).widget) == runs[i][k].after
                                            &&& *final(runs[i][k].ctx) == runs[i][k].left
                                            &&& *final(runs[i][k].rt) == runs[i][k].rt_left
                                        }
                                    &&& focus@ == focus_left(f0, runs)
                                    &&& passes_keep_stack(runs) ==> rt.stack() == s0
                                };
                            assert(start.ran(self@, start.event_passes(event, focused@), f0, all));
                        }
                    },
                    None => {
                        proof {
                            start.lemma_ran_nothing(self@, f0);
                            let none = choose|runs: Seq<Seq<Handling<'r, W>>>|
                                runs.len() == 0 && #[trigger] start.ran(self@, Seq::empty(), f0, runs);
                            assert(start.ran(self@, start.event_passes(event, focused@), f0, none));
                        }
                    },
                }
                false
            },
            _ => {
                proof {
                    start.lemma_ran_nothing(self@, f0);
                    let none = choose|runs: Seq<Seq<Handling<'r, W>>>|
                        runs.len() == 0 && #[trigger] start.ran(self@, Seq::empty(), f0, runs);
                    assert(start.ran(self@, start.event_passes(event, focused@), f0, none));
                }
                false
            },
        }
    }

    /// Carries out the change of focus that waits, with `focused` as the
    /// focused path, and returns the path that is focused afterwards. The
    /// request is taken from the focus manager before any node is told.
    fn change_focus<'r>(
        &mut self,
        focused: Vec<usize>,
        focus: &mut FocusManager,
        rt: &mut Runtime<W::Value>,
    ) -> (target: Vec<usize>)
        ensures
            old(self)@.served(
                final(self)@,
                old(self)@.focus_passes(focused@, old(focus).requested()),
            ),
            target@ == old(self)@.focus_after(focused@, old(focus).requested()),
            exists|runs: Seq<Seq<Handling<'r, W>>>|
                {
                    &&& #[trigger] old(self)@.ran(
                        final(self)@,
                        old(self)@.focus_passes(focused@, old(focus).requested()),
                        without_request(old(focus)@),
                        runs,
                    )
                    &&& forall|i: int, k: int|
                        0 <= i < runs.len() && 0 <= k < runs[i].len() ==> {
                            &&& *final((#[trigger] runs[i][k]).widget) == runs[i][k].after
                            &&& *final(runs[i][k].ctx) == runs[i][k].left
                            &&& *final(runs[i][k].rt) == runs[i][k].rt_left
                        }
                    &&& final(focus)@ == focus_left(without_request(old(focus)@), runs)
                    &&& passes_keep_stack(runs) ==> final(rt).stack() == old(rt).stack()
                },
    {
        let ghost start = self@;
        let ghost f0 = focus@;
        let ghost s0 = rt.stack();
        let ghost asked = focus.requested();
        let request = focus.take_change_request();
        let ghost f1 = focus@;
        proof {
            assert(f1 == without_request(f0));
        }
        let moves = match &request {
            Some(new_path) => !same_path(new_path.as_slice(), focused.as_slice())
                && self.is_valid_path(new_path.as_slice()),
            None => false,
        };
        if !moves {
            proof {
                start.lemma_unmoved_same();
                assert(self@.history =~= start.history + Seq::<Delivered>::empty());
                start.lemma_ran_nothing(self@, f1);
                let none = choose|runs: Seq<Seq<Handling<'r, W>>>|
                    runs.len() == 0 && #[trigger] start.ran(self@, Seq::empty(), f1, runs);
                assert(start.ran(self@, start.focus_passes(focused@, asked), f1, none));
            }
            return focused;
        }
        let new_path = request.unwrap();
        if focused.len() > 0 {
            self.deliver(focused.as_slice(), EventKind::FocusOut, focus, rt);
        } else {
            proof {
                start.lemma_unmoved_same();
                assert(self@.history =~= start.history + Seq::<Delivered>::empty());
            }
        }
        let ghost told_out = self@;
        let ghost f2 = focus@;
        let ghost s2 = rt.stack();
        let ghost out_part = if focused@.len() > 0 {
            start.delivered(focused@, EventKind::FocusOut)
        } else {
            Seq::<Delivered>::empty()
        };
        assert(start.served(told_out, out_part));
        if new_path.len() > 0 {
            self.deliver(new_path.as_slice(), EventKind::FocusIn, focus, rt);
            proof {
                start.lemma_delivered_unmoved(told_out, new_path@, EventKind::FocusIn);
            }
        } else {
            proof {
                told_out.lemma_unmoved_same();
                assert(self@.history =~= told_out.history + Seq::<Delivered>::empty());
            }
        }
        let ghost in_part = if new_path@.len() > 0 {
            start.delivered(new_path@, EventKind::FocusIn)
        } else {
            Seq::<Delivered>::empty()
        };
        proof {
            assert(told_out.served(self@, in_part));
            start.lemma_served_twice(told_out, self@, out_part, in_part);
            assert(out_part + in_part == start.focus_passes(focused@, asked));
            if focused@.len() == 0 {
                start.lemma_ran_nothing(told_out, f1);
            }
            if new_path@.len() == 0 {
                told_out.lemma_ran_nothing(self@, f2);
            }
            let outs = choose|runs: Seq<Seq<Handling<'r, W>>>|
                {
                    &&& #[trigger] start.ran(
                        told_out,
                        out_part,
                        f1,
                        runs,
                    )
                    &&& forall|i: int, k: int|
                        0 <= i < runs.len() && 0 <= k < runs[i].len() ==> {
                            &&& *final((#[trigger] runs[i][k]).widget) == runs[i][k].after
                            &&& *final(runs[i][k].ctx) == runs[i][k].left
                            &&& *final(runs[i][k].rt) == runs[i][k].rt_left
                        }
                    &&& f2 == focus_left(f1, runs)
                    &&& passes_keep_stack(runs) ==> s2 == s0
                };
            let ins = choose|runs: Seq<Seq<Handling<'r, W>>>|
                {
                    &&& #[trigger] told_out.ran(
                        self@,
                        in_part,
                        f2,
                        runs,
                    )
                    &&& forall|i: int, k: int|
                        0 <= i < runs.len() && 0 <= k < runs[i].len() ==> {
                            &&& *final((#[trigger] runs[i][k]).widget) == runs[i][k].after
                            &&& *final(runs[i][k].ctx) == runs[i][k].left
                            &&& *final(runs[i][k].rt) == runs[i][k].rt_left
                        }
                    &&& focus@ == focus_left(f2, runs)
                    &&& passes_keep_stack(runs) ==> rt.stack() == s2
                };
            start.lemma_ran_twice(told_out, self@, out_part, in_part, f1, outs, ins);
            lemma_passes_keep(outs, ins);
            assert(start.ran(self@, start.focus_passes(focused@, asked), f1, outs + ins));
        }
        new_path
    }

    /// Routes one event of the window into the tree.
    ///
    /// A pointer event goes to the hovered node, a key or a character to
    /// the focused one; an event that is meant for a node that does not
    /// exist is dropped and nothing else happens. Every handler is handed
    /// the focus manager as the handler before it left it, the first one
    /// as it was. Once the event has been delivered in full, the change of
    /// focus that waits then is carried out: where it asks for another
    /// path than the focused one and that path leads to a node, the node
    /// that had the focus is told that it lost it, the other that it has
    /// it, and the focus moves.
    pub fn route_window_event<'r>(
        &mut self,
        event: &WindowEvent,
        focus: &mut FocusManager,
        rt: &mut Runtime<W::Value>,
    )
        ensures
            old(self)@.unmoved(final(self)@),
            final(self)@.hover_path == old(self)@.hover_after_event(*event),
            old(self)@.drops(*event, old(focus).focused()) ==> {
                &&& final(self)@ == old(self)@
                &&& *final(focus) == *old(focus)
                &&& *final(rt) == *old(rt)
            },
            !old(self)@.drops(*event, old(focus).focused()) ==> {
                &&& final(focus).held() == held_after(*event, old(focus).held())
                &&& exists|
                    first: Seq<Seq<Handling<'r,
                    W>>>,
                    second: Seq<Seq<Handling<'r,
                    W>>>,
                    mid: Tree<W>,
                |
                    {
                        &&& #[trigger] old(self)@.ran(
                            mid,
                            old(self)@.event_passes(*event, old(focus).focused()),
                            old(focus)@,
                            first,
                        )
                        &&& #[trigger] mid.ran(
                            final(self)@,
                            old(self)@.focus_passes(
                                old(focus).focused(),
                                asked(*event, old(focus)@, first),
                            ),
                            without_request(focus_left(old(focus)@, first)),
                            second,
                        )
                        &&& forall|i: int, k: int|
                            0 <= i < first.len() && 0 <= k < first[i].len() ==> {
                                &&& *final((#[trigger] first[i][k]).widget) == first[i][k].after
                                &&& *final(first[i][k].ctx) == first[i][k].left
                                &&& *final(first[i][k].rt) == first[i][k].rt_left
                            }
                        &&& forall|i: int, k: int|
                            0 <= i < second.len() && 0 <= k < second[i].len() ==> {
                                &&& *final((#[trigger] second[i][k]).widget) == second[i][k].after
                                &&& *final(second[i][k].ctx) == second[i][k].left
                                &&& *final(second[i][k].rt) == second[i][k].rt_left
                            }
                        &&& final(self)@.history == old(self)@.history + old(self)@.event_passes(
                            *event,
                            old(focus).focused(),
                        ) + old(self)@.focus_passes(
                            old(focus).focused(),
                            asked(*event, old(focus)@, first),
                        )
                        &&& final(focus).focused() == old(self)@.focus_after(
                            old(focus).focused(),
                            asked(*event, old(focus)@, first),
                        )
                        &&& final(focus).requested() == focus_left(
                            without_request(focus_left(old(focus)@, first)),
                            second,
                        ).requested
                        &&& passes_keep_stack(first) && passes_keep_stack(second)
                            ==> final(rt).stack() == old(rt).stack()
                    }
            },
    {
        let ghost start = self@;
        let ghost f0 = focus@;
        let ghost s0 = rt.stack();
        let ghost was_focused = focus.focused();
        let focused: Vec<usize> = slice_to_vec(focus.path());
        let modifiers = match *event {
            WindowEvent::ModifiersChanged(new_modifiers) => new_modifiers,
            _ => focus.modifiers(),
        };
        if self.deliver_event(*event, focused.as_slice(), focus, rt) {
            return ;
        }
        let ghost f1 = focus@;
        let ghost s1 = rt.stack();
        match *event {
            WindowEvent::Focused(false) => {
                focus.blur();
            },
            _ => {},
        }
        let ghost routed = self@;
        let ghost leveled = Tree { hover_path: start.hover_path, ..routed };
        let ghost event_part = start.event_passes(*event, was_focused);
        let ghost request = focus.requested();
        let ghost f2 = focus@;
        proof {
            assert(request == waiting(*event, f1.requested));
            assert(without_request(f2) == without_request(f1));
            assert(leveled.children == routed.children);
            assert forall|path: Seq<usize>| #[trigger]
                start.valid_path(path) == routed.valid_path(path) by {
                start.lemma_unmoved_keeps_paths(leveled, path, 0);
                leveled.lemma_unmoved_same();
                assert(leveled.unmoved(routed));
                leveled.lemma_unmoved_keeps_paths(routed, path, 0);
            }
            assert(routed.focus_passes(was_focused, request) == start.focus_passes(
                was_focused,
                request,
            ));
        }
        let target = self.change_focus(focused, focus, rt);
        let ghost f3 = focus@;
        focus.commit_focus_change(target);
        focus.set_modifiers(modifiers);
        proof {
            leveled.lemma_unmoved_same();
            assert(leveled.unmoved(routed));
            start.lemma_unmoved_twice(leveled, routed);
            start.lemma_unmoved_twice(routed, self@);
            assert(self@.history == start.history + event_part + start.focus_passes(
                was_focused,
                request,
            ));
            assert(focus.focused() == start.focus_after(was_focused, request));
            let first = choose|runs: Seq<Seq<Handling<'r, W>>>|
                {
                    &&& #[trigger] start.ran(
                        routed,
                        event_part,
                        f0,
                        runs,
                    )
                    &&& forall|i: int, k: int|
                        0 <= i < runs.len() && 0 <= k < runs[i].len() ==> {
                            &&& *final((#[trigger] runs[i][k]).widget) == runs[i][k].after
                            &&& *final(runs[i][k].ctx) == runs[i][k].left
                            &&& *final(runs[i][k].rt) == runs[i][k].rt_left
                        }
                    &&& f1 == focus_left(f0, runs)
                    &&& passes_keep_stack(runs) ==> s1 == s0
                };
            let second = choose|runs: Seq<Seq<Handling<'r, W>>>|
                {
                    &&& #[trigger] routed.ran(
                        self@,
                        routed.focus_passes(was_focused, request),
                        without_request(f2),
                        runs,
                    )
                    &&& forall|i: int, k: int|
                        0 <= i < runs.len() && 0 <= k < runs[i].len() ==> {
                            &&& *final((#[trigger] runs[i][k]).widget) == runs[i][k].after
                            &&& *final(runs[i][k].ctx) == runs[i][k].left
                            &&& *final(runs[i][k].rt) == runs[i][k].rt_left
                        }
                    &&& f3 == focus_left(without_request(f2), runs)
                    &&& passes_keep_stack(runs) ==> rt.stack() == s1
                };
            assert(asked(*event, f0, first) == request);
            assert(start.ran(routed, event_part, f0, first));
            assert(routed.ran(
                self@,
                start.focus_passes(was_focused, asked(*event, f0, first)),
                without_request(focus_left(f0, first)),
                second,
            ));
        }
    }

    /// Paints every node of the tree that is `paint_dirty`, each node
    /// before its children, and leaves no node `paint_dirty`. Each node is
    /// the running subscriber while it is painted. Where every painting
    /// leaves the stack of running subscribers as it found it, the stack
    /// is afterwards what it was.
    pub fn collect<'r>(&mut self, rt: &mut Runtime<W::Value>, env: &mut W::Env)
        ensures
            old(self)@.painted(final(self)@),
            exists|paints: Paints<'r, W>|
                {
                    &&& #[trigger] old(self)@.painted_as(final(self)@, paints)
                    &&& forall|path: Seq<usize>|
                        (#[trigger] paints.at(path)).is_some() ==> {
                            &&& *final(paints.at(path).unwrap().widget)
                                == paints.at(path).unwrap().after
                            &&& *final(paints.at(path).unwrap().rt) == paints.at(path).unwrap().left
                        }
                    &&& paints.keeps_stack() ==> final(rt).stack() == old(rt).stack()
                },
        decreases *old(self),
    {
        let ghost before = self@;
        let ghost stack0 = rt.stack();
        proof {
            self.lemma_view();
        }
        let ghost was = self.widget;
        let ghost id = self.id;
        let rect = self.layout_rect;
        let ghost mut begun = *rt;
        let ghost mut left = *rt;
        if self.dirty.paint_dirty {
            let scope = ScopedNodeContext::new(rt, self.id);
            proof {
                begun = *rt;
            }
            self.widget.paint(rect, rt, env);
            proof {
                left = *rt;
            }
            scope.exit(rt);
            self.dirty.paint_dirty = false;
            proof {
                lemma_scope_restores(stack0, Subscriber::Node(id));
            }
        }
        let ghost now = self.widget;
        let ghost own_kept = !before.dirty.paint_dirty || left.stack() == begun.stack();
        let n = self.children.len();
        let mut i: usize = 0;
        proof {
            lemma_no_paints::<W>();
        }
        while i < n
            invariant
                i <= n,
                n == self.children@.len(),
                n == old(self).children@.len(),
                before == old(self)@,
                before.children.len() == n,
                self.id == old(self).id,
                self.layout_rect == old(self).layout_rect,
                self.cached_size == old(self).cached_size,
                self.last_style == old(self).last_style,
                self.hover_path == old(self).hover_path,
                self.history == old(self).history,
                self.dirty == (crate::layout::dirty::Dirty {
                    self_dirty: old(self).dirty.self_dirty,
                    child_dirty: old(self).dirty.child_dirty,
                    paint_dirty: false,
                }),
                !old(self).dirty.paint_dirty ==> self.widget == old(self).widget,
                self.widget == now,
                was == old(self).widget,
                id == old(self).id,
                rect == old(self).layout_rect,
                own_kept == (!before.dirty.paint_dirty || left.stack() == begun.stack()),
                old(self).dirty.paint_dirty ==> exists|
                    w: &mut W,
                    r: &mut Runtime<W::Value>,
                    e: &mut W::Env,
                |
                    {
                        &&& *w == was
                        &&& *final(w) == now
                        &&& *r == begun
                        &&& *final(r) == left
                        &&& r.stack().len() > 0
                        &&& r.stack().last() == Subscriber::Node(id)
                        &&& #[trigger] call_ensures(W::paint, (w, rect, r, e), ())
                    },
                exists|below: Seq<Paints<'r, W>>|
                    {
                        &&& #[trigger] below.len() == i
                        &&& forall|j: int|
                            0 <= j < i ==> (#[trigger] before.children[j]).painted_as(
                                self.children@[j]@,
                                below[j],
                            )
                        &&& forall|j: int, path: Seq<usize>|
                            0 <= j < i && (#[trigger] below[j].at(path)).is_some() ==> {
                                &&& *final(below[j].at(path).unwrap().widget)
                                    == below[j].at(path).unwrap().after
                                &&& *final(below[j].at(path).unwrap().rt)
                                    == below[j].at(path).unwrap().left
                            }
                        &&& (own_kept && keep_stack(below, i as int))
                            ==> rt.stack() == stack0
                    },
                forall|j: int| i <= j < n ==> self.children@[j] == old(self).children@[j],
                forall|j: int|
                    0 <= j < n ==> #[trigger] before.children[j] == old(self).children@[j]@,
            decreases n - i,
        {
            assert(decreases_to!(old(self).children => old(self).children[i as int]));
            let ghost kids = self.children@;
            let ghost stack_then = rt.stack();
            let child = &mut self.children[i];
            let ghost under = child@;
            child.collect(rt, env);
            let ghost under_now = child@;
            proof {
                let below = choose|below: Seq<Paints<'r, W>>|
                    {
                        &&& #[trigger] below.len() == i
                        &&& forall|j: int|
                            0 <= j < i ==> (#[trigger] before.children[j]).painted_as(
                                kids[j]@,
                                below[j],
                            )
                        &&& forall|j: int, path: Seq<usize>|
                            0 <= j < i && (#[trigger] below[j].at(path)).is_some() ==> {
                                &&& *final(below[j].at(path).unwrap().widget)
                                    == below[j].at(path).unwrap().after
                                &&& *final(below[j].at(path).unwrap().rt)
                                    == below[j].at(path).unwrap().left
                            }
                        &&& (own_kept && keep_stack(below, i as int))
                            ==> stack_then == stack0
                    };
                let made = choose|paints: Paints<'r, W>|
                    {
                        &&& #[trigger] under.painted_as(under_now, paints)
                        &&& forall|path: Seq<usize>|
                            (#[trigger] paints.at(path)).is_some() ==> {
                                &&& *final(paints.at(path).unwrap().widget)
                                    == paints.at(path).unwrap().after
                                &&& *final(paints.at(path).unwrap().rt)
                                    == paints.at(path).unwrap().left
                            }
                        &&& paints.keeps_stack() ==> rt.stack() == stack_then
                    };
                let more = below.push(made);
                assert(more.len() == i + 1);
                assert forall|j: int| 0 <= j < i + 1 implies (#[trigger] before.children[j]).painted_as(
                    self.children@[j]@,
                    more[j],
                ) by {
                    if j < i {
                        assert(self.children@[j] == kids[j]);
                        assert(more[j] == below[j]);
                    }
                }
                assert forall|j: int, path: Seq<usize>|
                    0 <= j < i + 1 && (#[trigger] more[j].at(path)).is_some() implies {
                        &&& *final(more[j].at(path).unwrap().widget)
                            == more[j].at(path).unwrap().after
                        &&& *final(more[j].at(path).unwrap().rt) == more[j].at(path).unwrap().left
                    } by {
                    if j < i {
                        assert(more[j] == below[j]);
                    }
                }
                lemma_keep_more(below, made);
            }
            i += 1;
        }
        proof {
            self.lemma_view();
            let below = choose|below: Seq<Paints<'r, W>>|
                {
                    &&& #[trigger] below.len() == n
                    &&& forall|j: int|
                        0 <= j < n ==> (#[trigger] before.children[j]).painted_as(
                            self.children@[j]@,
                            below[j],
                        )
                    &&& forall|j: int, path: Seq<usize>|
                        0 <= j < n && (#[trigger] below[j].at(path)).is_some() ==> {
                            &&& *final(below[j].at(path).unwrap().widget)
                                == below[j].at(path).unwrap().after
                            &&& *final(below[j].at(path).unwrap().rt)
                                == below[j].at(path).unwrap().left
                        }
                    &&& (own_kept && keep_stack(below, n as int))
                        ==> rt.stack() == stack0
                };
            let own = if before.dirty.paint_dirty {
                let (w, r, e) = choose|w: &mut W, r: &mut Runtime<W::Value>, e: &mut W::Env|
                    {
                        &&& *w == was
                        &&& *final(w) == now
                        &&& *r == begun
                        &&& *final(r) == left
                        &&& r.stack().len() > 0
                        &&& r.stack().last() == Subscriber::Node(id)
                        &&& #[trigger] call_ensures(W::paint, (w, rect, r, e), ())
                    };
                Some(Painting { widget: w, rt: r, env: e, after: now, left })
            } else {
                None
            };
            let paints = Paints { own, below };
            assert(before.painted_as(self@, paints));
            assert forall|path: Seq<usize>|
                (#[trigger] paints.at(path)).is_some() implies {
                    &&& *final(paints.at(path).unwrap().widget) == paints.at(path).unwrap().after
                    &&& *final(paints.at(path).unwrap().rt) == paints.at(path).unwrap().left
                } by {
                if path.len() > 0 {
                    assert(paints.at(path) == below[path[0] as int].at(path.skip(1)));
                }
            }
            lemma_keep_whole(paints);
            before.lemma_painted_as(self@, paints);
        }
    }
}

} // verus!
