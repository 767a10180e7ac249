//! What the passes of a delivery do, handler by handler.

use vstd::prelude::*;
use crate::layout::dirty::Dirty;
use crate::layout::tree::Tree;
use crate::signals::{Runtime, Subscriber};
use crate::widgets::base::Widget;
use crate::windowing::events::{
    Delivered, EventCtx, EventKind, FocusState, Modifiers, Phase,
};

verus! {

/// One run of a widget's handler: what it was handed, and what it left.
pub struct Handling<'r, W: Widget> {
    /// The widget, as handed to the handler.
    pub widget: &'r mut W,
    /// The context, as handed to the handler.
    pub ctx: &'r mut EventCtx<'r>,
    /// The runtime, as handed to the handler.
    pub rt: &'r mut Runtime<W::Value>,
    /// The widget as the handler left it.
    pub after: W,
    /// The context as the handler left it.
    pub left: EventCtx<'r>,
    /// The runtime as the handler left it.
    pub rt_left: Runtime<W::Value>,
}

impl<'r, W: Widget> Handling<'r, W> {
    /// The handler left the stack of running subscribers as it found it.
    pub open spec fn keeps_stack(self) -> bool {
        self.rt_left.stack() == self.rt.stack()
    }
}

impl<'r, W: Widget> Handling<'r, W> {
    /// The handler left the focus where it was, and the modifier keys as
    /// they were held and shown.
    pub open spec fn keeps_focus(self) -> bool {
        &&& self.left.focus@.focused == self.ctx.focus@.focused
        &&& self.left.focus@.held == self.ctx.focus@.held
        &&& self.left.modifiers == self.ctx.modifiers
    }

    /// The handler was handed a context in which the focus is at
    /// `focused` and the modifier keys `held` are held and shown.
    pub open spec fn sees(self, focused: Seq<usize>, held: Modifiers) -> bool {
        &&& self.ctx.focus@.focused == focused
        &&& self.ctx.focus@.held == held
        &&& self.ctx.modifiers == held
    }
}

impl<'r, W: Widget> Handling<'r, W> {
    /// The handler left the waiting change of focus as it found it.
    pub open spec fn keeps_request(self) -> bool {
        self.left.focus@.requested == self.ctx.focus@.requested
    }
}

/// Every handler of the pass left the waiting change of focus as it found
/// it.
pub open spec fn pass_keeps_request<W: Widget>(runs: Seq<Handling<W>>) -> bool {
    forall|k: int| 0 <= k < runs.len() ==> (#[trigger] runs[k]).keeps_request()
}

/// Every handler of every pass left the waiting change of focus as it
/// found it.
pub open spec fn passes_keep_request<W: Widget>(runs: Seq<Seq<Handling<W>>>) -> bool {
    forall|i: int| 0 <= i < runs.len() ==> pass_keeps_request(#[trigger] runs[i])
}

/// Every handler of the pass left the focus where it was and the modifier
/// keys as they were.
pub open spec fn pass_keeps_focus<W: Widget>(runs: Seq<Handling<W>>) -> bool {
    forall|k: int| 0 <= k < runs.len() ==> (#[trigger] runs[k]).keeps_focus()
}

/// Every handler of every pass left the focus where it was and the
/// modifier keys as they were.
pub open spec fn passes_keep_focus<W: Widget>(runs: Seq<Seq<Handling<W>>>) -> bool {
    forall|i: int| 0 <= i < runs.len() ==> pass_keeps_focus(#[trigger] runs[i])
}

/// Every handler of the pass left the stack of running subscribers as it
/// found it.
pub open spec fn pass_keeps_stack<W: Widget>(runs: Seq<Handling<W>>) -> bool {
    forall|k: int| 0 <= k < runs.len() ==> (#[trigger] runs[k]).keeps_stack()
}

/// Every handler of every pass left the stack of running subscribers as
/// it found it.
pub open spec fn passes_keep_stack<W: Widget>(runs: Seq<Seq<Handling<W>>>) -> bool {
    forall|i: int| 0 <= i < runs.len() ==> pass_keeps_stack(#[trigger] runs[i])
}

/// What the focus manager holds once the passes have run as `runs` tells:
/// what the last handler left of it, or `focus` where no pass ran.
pub open spec fn focus_left<W: Widget>(focus: FocusState, runs: Seq<Seq<Handling<W>>>) -> FocusState {
    if runs.len() == 0 || runs.last().len() == 0 {
        focus
    } else {
        runs.last().last().left.focus@
    }
}

/// Handlers that kept the stack one by one kept it together.
pub proof fn lemma_pass_keeps<W: Widget>(first: Seq<Handling<W>>, second: Seq<Handling<W>>)
    ensures
        pass_keeps_stack(first + second) ==> pass_keeps_stack(first) && pass_keeps_stack(second),
{
    let all = first + second;
    if pass_keeps_stack(all) {
        assert forall|k: int| 0 <= k < first.len() implies (#[trigger] first[k]).keeps_stack() by {
            assert(all[k] == first[k]);
        }
        assert forall|k: int| 0 <= k < second.len() implies (#[trigger] second[k]).keeps_stack() by {
            assert(all[k + first.len()] == second[k]);
        }
    }
}

/// Passes that kept the stack one by one kept it together.
pub proof fn lemma_passes_keep<W: Widget>(
    first: Seq<Seq<Handling<W>>>,
    second: Seq<Seq<Handling<W>>>,
)
    ensures
        passes_keep_stack(first + second) ==> passes_keep_stack(first) && passes_keep_stack(
            second,
        ),
{
    let all = first + second;
    if passes_keep_stack(all) {
        assert forall|i: int| 0 <= i < first.len() implies pass_keeps_stack(#[trigger] first[i]) by {
            assert(all[i] == first[i]);
        }
        assert forall|i: int| 0 <= i < second.len() implies pass_keeps_stack(
            #[trigger] second[i],
        ) by {
            assert(all[i + first.len()] == second[i]);
        }
    }
}

/// `shown` is the context `seen` but for the rectangle in it, which is
/// that of the node whose handler is handed it.
pub open spec fn shown_as(shown: EventCtx, seen: EventCtx) -> bool {
    shown == (EventCtx { node_layout: shown.node_layout, ..seen })
}

/// Every handler but the first is handed the context as the handler
/// before it left it, each with the rectangle of its own node in it.
pub open spec fn handed_on<W: Widget>(runs: Seq<Handling<W>>) -> bool {
    forall|j: int, k: int|
        0 <= j && k == j + 1 && k < runs.len() ==> shown_as(
            *(#[trigger] runs[k]).ctx,
            (#[trigger] runs[j]).left,
        )
}

/// The context of a pass that is about to begin: for the pass and the path
/// of `pass`, with nothing stopped, prevented or requested, with a focus
/// manager that holds `focus`, and with the modifier keys that it holds.
pub open spec fn begins(seen: EventCtx, pass: Delivered, focus: FocusState) -> bool {
    &&& seen.phase == pass.phase
    &&& seen.path@ == pass.path
    &&& !seen.stopped
    &&& !seen.default_prevented
    &&& !seen.layout_requested
    &&& seen.focus@ == focus
    &&& seen.modifiers == focus.held
}

impl<W: Widget> Tree<W> {
    /// The tree without what only its root records: the hover path and
    /// the history.
    pub open spec fn bare(self) -> Tree<W> {
        Tree { hover_path: Seq::empty(), history: Seq::empty(), ..self }
    }

    /// `after` is `self` once the handler of its root has run as `run`
    /// tells. The handler was handed the root's widget, the context `seen`
    /// with the root's rectangle in it, and a runtime in which the root is
    /// the running subscriber. The root has the widget that the handler
    /// left and is to be painted again; where the handler asked for a
    /// layout it is `self_dirty` and `child_dirty` too. Nothing else
    /// differs.
    pub open spec fn handled_by(
        self,
        after: Tree<W>,
        ev: EventKind,
        seen: EventCtx,
        run: Handling<W>,
    ) -> bool {
        &&& *run.widget == self.widget
        &&& *run.ctx == (EventCtx { node_layout: self.layout_rect, ..seen })
        &&& run.rt.stack().len() > 0
        &&& run.rt.stack().last() == Subscriber::Node(self.id)
        &&& call_ensures(W::event, (run.widget, run.ctx, &ev, run.rt), ())
        &&& after == (Tree {
            widget: run.after,
            dirty: if run.left.layout_requested {
                Dirty { self_dirty: true, child_dirty: true, paint_dirty: true }
            } else {
                Dirty { paint_dirty: true, ..self.dirty }
            },
            ..self
        })
    }

    /// `after` has the children of `self` but for the child `k`.
    pub open spec fn same_children_but(self, after: Tree<W>, k: int) -> bool {
        &&& after.children.len() == self.children.len()
        &&& forall|j: int|
            0 <= j < self.children.len() && j != k ==> #[trigger] after.children[j]
                == self.children[j]
    }

    /// The part of `path` from `depth` on names no further node below
    /// `self`: `self` is the target.
    pub open spec fn ends_here(self, path: Seq<usize>, depth: int) -> bool {
        depth < 0 || depth >= path.len() || path[depth] >= self.children.len()
    }

    /// `after` is `self` once a capture pass has run on the part of `path`
    /// from `depth` on, with the handlers run as `runs` tells, one after
    /// the other. The handler of `self` runs first. Where it stopped the
    /// pass, or `self` is the target, nothing below `self` is touched;
    /// otherwise the pass goes on in the child that the path names, with
    /// the context as the handler left it.
    pub open spec fn captured(
        self,
        after: Tree<W>,
        path: Seq<usize>,
        depth: int,
        ev: EventKind,
        seen: EventCtx,
        runs: Seq<Handling<W>>,
    ) -> bool
        decreases path.len() - depth,
    {
        &&& runs.len() >= 1
        &&& if self.ends_here(path, depth) || runs[0].left.stopped {
            &&& runs.len() == 1
            &&& self.handled_by(after, ev, seen, runs[0])
        } else {
            let k = path[depth] as int;
            &&& self.handled_by(Tree { children: self.children, ..after }, ev, seen, runs[0])
            &&& self.same_children_but(after, k)
            &&& self.children[k].captured(
                after.children[k],
                path,
                depth + 1,
                ev,
                runs[0].left,
                runs.skip(1),
            )
        }
    }

    /// `after` is `self` once a target pass has run on the part of `path`
    /// from `depth` on: the handler of the target has run as the one run
    /// in `runs` tells, and every other node is as it was.
    pub open spec fn targeted(
        self,
        after: Tree<W>,
        path: Seq<usize>,
        depth: int,
        ev: EventKind,
        seen: EventCtx,
        runs: Seq<Handling<W>>,
    ) -> bool
        decreases path.len() - depth,
    {
        if self.ends_here(path, depth) {
            &&& runs.len() == 1
            &&& self.handled_by(after, ev, seen, runs[0])
        } else {
            let k = path[depth] as int;
            &&& after == (Tree { children: after.children, ..self })
            &&& self.same_children_but(after, k)
            &&& self.children[k].targeted(after.children[k], path, depth + 1, ev, seen, runs)
        }
    }

    /// `after` is `self` once a bubble pass has run on the part of `path`
    /// from `depth` on, with the handlers run as `runs` tells, one after
    /// the other. The pass runs below `self` first, from the target up.
    /// Where a handler there stopped it, `self` itself is untouched;
    /// otherwise the handler of `self` runs last, with the context as the
    /// handler before it left it.
    pub open spec fn bubbled(
        self,
        after: Tree<W>,
        path: Seq<usize>,
        depth: int,
        ev: EventKind,
        seen: EventCtx,
        runs: Seq<Handling<W>>,
    ) -> bool
        decreases path.len() - depth,
    {
        &&& runs.len() >= 1
        &&& if self.ends_here(path, depth) {
            &&& runs.len() == 1
            &&& self.handled_by(after, ev, seen, runs[0])
        } else {
            let k = path[depth] as int;
            let risen = Tree { children: after.children, ..self };
            &&& self.same_children_but(after, k)
            &&& {
                ||| {
                    &&& runs.last().left.stopped
                    &&& after == risen
                    &&& self.children[k].bubbled(after.children[k], path, depth + 1, ev, seen, runs)
                }
                ||| {
                    &&& runs.len() >= 2
                    &&& !runs[runs.len() - 2].left.stopped
                    &&& self.children[k].bubbled(
                        after.children[k],
                        path,
                        depth + 1,
                        ev,
                        seen,
                        runs.drop_last(),
                    )
                    &&& risen.handled_by(after, ev, runs[runs.len() - 2].left, runs.last())
                }
            }
        }
    }

    /// `after` is `self` once the pass `phase` has run on the part of
    /// `path` from `depth` on, with the handlers run as `runs` tells.
    pub open spec fn passed(
        self,
        after: Tree<W>,
        path: Seq<usize>,
        depth: int,
        phase: Phase,
        ev: EventKind,
        seen: EventCtx,
        runs: Seq<Handling<W>>,
    ) -> bool {
        match phase {
            Phase::Capture => self.captured(after, path, depth, ev, seen, runs),
            Phase::Target => self.targeted(after, path, depth, ev, seen, runs),
            Phase::Bubble => self.bubbled(after, path, depth, ev, seen, runs),
        }
    }

    /// `after` is `self`, but for what only the root records, once the
    /// pass `pass` has run from the root with a context that begins it
    /// and whose focus manager holds `focus`.
    pub open spec fn pass_ran(
        self,
        after: Tree<W>,
        pass: Delivered,
        focus: FocusState,
        runs: Seq<Handling<W>>,
    ) -> bool {
        &&& self.valid_path(pass.path)
        &&& runs.len() >= 1
        &&& exists|seen: EventCtx|
            {
                &&& begins(seen, pass, focus)
                &&& #[trigger] self.bare().passed(
                    after.bare(),
                    pass.path,
                    0,
                    pass.phase,
                    pass.kind,
                    seen,
                    runs,
                )
            }
    }

    /// `after` is `self`, but for what only the root records, once the
    /// passes `passes` have run one after the other, each from the root,
    /// with the handlers of each run as its place in `runs` tells. The
    /// focus manager holds `focus` when the first pass begins, and each
    /// further pass begins with what the pass before it left of it.
    pub open spec fn ran(
        self,
        after: Tree<W>,
        passes: Seq<Delivered>,
        focus: FocusState,
        runs: Seq<Seq<Handling<W>>>,
    ) -> bool
        decreases passes.len(),
    {
        &&& runs.len() == passes.len()
        &&& if passes.len() == 0 {
            after.bare() == self.bare()
        } else {
            exists|mid: Tree<W>|
                {
                    &&& self.ran(mid, passes.drop_last(), focus, runs.drop_last())
                    &&& #[trigger] mid.pass_ran(
                        after,
                        passes.last(),
                        focus_left(focus, runs.drop_last()),
                        runs.last(),
                    )
                }
        }
    }

    /// A pass goes by the trees without what only their roots record.
    pub proof fn lemma_passed_bare(
        self,
        after: Tree<W>,
        path: Seq<usize>,
        depth: int,
        phase: Phase,
        ev: EventKind,
        seen: EventCtx,
        runs: Seq<Handling<W>>,
    )
        requires
            self.passed(after, path, depth, phase, ev, seen, runs),
            after.hover_path == self.hover_path,
            after.history == self.history,
        ensures
            self.bare().passed(after.bare(), path, depth, phase, ev, seen, runs),
    {
        let from = self.bare();
        let to = after.bare();
        assert(from.ends_here(path, depth) == self.ends_here(path, depth));
        if !self.ends_here(path, depth) {
            let k = path[depth] as int;
            assert(self.same_children_but(after, k) ==> from.same_children_but(to, k));
            assert((Tree { children: from.children, ..to }) == (Tree {
                children: self.children,
                ..after
            }).bare());
            assert((Tree { children: to.children, ..from }) == (Tree {
                children: after.children,
                ..self
            }).bare());
        }
        match phase {
            Phase::Capture => {
                assert(from.captured(to, path, depth, ev, seen, runs));
            },
            Phase::Target => {
                assert(from.targeted(to, path, depth, ev, seen, runs));
            },
            Phase::Bubble => {
                assert(from.bubbled(to, path, depth, ev, seen, runs));
            },
        }
    }

    /// In a capture pass every handler is handed the context as the
    /// handler before it left it, the first one as the pass began.
    pub proof fn lemma_captured_hands_on(
        self,
        after: Tree<W>,
        path: Seq<usize>,
        depth: int,
        ev: EventKind,
        seen: EventCtx,
        runs: Seq<Handling<W>>,
    )
        requires
            self.captured(after, path, depth, ev, seen, runs),
        ensures
            runs.len() >= 1,
            shown_as(*runs[0].ctx, seen),
            handed_on(runs),
        decreases path.len() - depth,
    {
        if !self.ends_here(path, depth) && !runs[0].left.stopped {
            let k = path[depth] as int;
            let rest = runs.skip(1);
            self.children[k].lemma_captured_hands_on(
                after.children[k],
                path,
                depth + 1,
                ev,
                runs[0].left,
                rest,
            );
            assert forall|j: int, k: int| 0 <= j && k == j + 1 && k < runs.len() implies shown_as(
                *(#[trigger] runs[k]).ctx,
                (#[trigger] runs[j]).left,
            ) by {
                assert(runs[k] == rest[k - 1]);
                if j > 0 {
                    assert(runs[j] == rest[j - 1]);
                }
            }
        }
    }

    /// In a target pass the one handler is handed the context as the
    /// pass began.
    pub proof fn lemma_targeted_hands_on(
        self,
        after: Tree<W>,
        path: Seq<usize>,
        depth: int,
        ev: EventKind,
        seen: EventCtx,
        runs: Seq<Handling<W>>,
    )
        requires
            self.targeted(after, path, depth, ev, seen, runs),
        ensures
            runs.len() >= 1,
            shown_as(*runs[0].ctx, seen),
            handed_on(runs),
        decreases path.len() - depth,
    {
        if !self.ends_here(path, depth) {
            let k = path[depth] as int;
            self.children[k].lemma_targeted_hands_on(
                after.children[k],
                path,
                depth + 1,
                ev,
                seen,
                runs,
            );
        }
    }

    /// In a bubble pass every handler is handed the context as the
    /// handler before it left it, the first one as the pass began.
    pub proof fn lemma_bubbled_hands_on(
        self,
        after: Tree<W>,
        path: Seq<usize>,
        depth: int,
        ev: EventKind,
        seen: EventCtx,
        runs: Seq<Handling<W>>,
    )
        requires
            self.bubbled(after, path, depth, ev, seen, runs),
        ensures
            runs.len() >= 1,
            shown_as(*runs[0].ctx, seen),
            handed_on(runs),
        decreases path.len() - depth,
    {
        if !self.ends_here(path, depth) {
            let k = path[depth] as int;
            let stopped_below = {
                &&& runs.last().left.stopped
                &&& after == (Tree { children: after.children, ..self })
                &&& self.children[k].bubbled(after.children[k], path, depth + 1, ev, seen, runs)
            };
            if stopped_below {
                self.children[k].lemma_bubbled_hands_on(
                    after.children[k],
                    path,
                    depth + 1,
                    ev,
                    seen,
                    runs,
                );
            } else {
                let rest = runs.drop_last();
                self.children[k].lemma_bubbled_hands_on(
                    after.children[k],
                    path,
                    depth + 1,
                    ev,
                    seen,
                    rest,
                );
                assert(runs[0] == rest[0]);
                assert forall|j: int, k: int|
                    0 <= j && k == j + 1 && k < runs.len() implies shown_as(
                    *(#[trigger] runs[k]).ctx,
                    (#[trigger] runs[j]).left,
                ) by {
                    assert(runs[j] == rest[j]);
                    if k < runs.len() - 1 {
                        assert(runs[k] == rest[k]);
                    }
                }
            }
        }
    }

    /// Within a pass every handler is handed the context as the handler
    /// before it left it, the first one as the pass began, each with the
    /// rectangle of its own node in it.
    pub proof fn lemma_passed_hands_on(
        self,
        after: Tree<W>,
        path: Seq<usize>,
        depth: int,
        phase: Phase,
        ev: EventKind,
        seen: EventCtx,
        runs: Seq<Handling<W>>,
    )
        requires
            self.passed(after, path, depth, phase, ev, seen, runs),
        ensures
            runs.len() >= 1,
            shown_as(*runs[0].ctx, seen),
            handed_on(runs),
    {
        match phase {
            Phase::Capture => self.lemma_captured_hands_on(after, path, depth, ev, seen, runs),
            Phase::Target => self.lemma_targeted_hands_on(after, path, depth, ev, seen, runs),
            Phase::Bubble => self.lemma_bubbled_hands_on(after, path, depth, ev, seen, runs),
        }
    }

    /// Every run of a pass is a run of a widget's handler on the event.
    pub proof fn lemma_passed_calls(
        self,
        after: Tree<W>,
        path: Seq<usize>,
        depth: int,
        phase: Phase,
        ev: EventKind,
        seen: EventCtx,
        runs: Seq<Handling<W>>,
    )
        requires
            self.passed(after, path, depth, phase, ev, seen, runs),
        ensures
            forall|k: int|
                0 <= k < runs.len() ==> call_ensures(
                    W::event,
                    ((#[trigger] runs[k]).widget, runs[k].ctx, &ev, runs[k].rt),
                    (),
                ),
        decreases path.len() - depth,
    {
        if !self.ends_here(path, depth) {
            let k = path[depth] as int;
            match phase {
                Phase::Capture => {
                    if !runs[0].left.stopped {
                        let rest = runs.skip(1);
                        self.children[k].lemma_passed_calls(
                            after.children[k],
                            path,
                            depth + 1,
                            phase,
                            ev,
                            runs[0].left,
                            rest,
                        );
                        assert forall|j: int| 0 <= j < runs.len() implies call_ensures(
                            W::event,
                            ((#[trigger] runs[j]).widget, runs[j].ctx, &ev, runs[j].rt),
                            (),
                        ) by {
                            if j > 0 {
                                assert(runs[j] == rest[j - 1]);
                            }
                        }
                    }
                },
                Phase::Target => {
                    self.children[k].lemma_passed_calls(
                        after.children[k],
                        path,
                        depth + 1,
                        phase,
                        ev,
                        seen,
                        runs,
                    );
                },
                Phase::Bubble => {
                    let stopped_below = {
                        &&& runs.last().left.stopped
                        &&& after == (Tree { children: after.children, ..self })
                        &&& self.children[k].bubbled(
                            after.children[k],
                            path,
                            depth + 1,
                            ev,
                            seen,
                            runs,
                        )
                    };
                    if stopped_below {
                        self.children[k].lemma_passed_calls(
                            after.children[k],
                            path,
                            depth + 1,
                            phase,
                            ev,
                            seen,
                            runs,
                        );
                    } else {
                        let rest = runs.drop_last();
                        self.children[k].lemma_passed_calls(
                            after.children[k],
                            path,
                            depth + 1,
                            phase,
                            ev,
                            seen,
                            rest,
                        );
                        assert forall|j: int| 0 <= j < runs.len() implies call_ensures(
                            W::event,
                            ((#[trigger] runs[j]).widget, runs[j].ctx, &ev, runs[j].rt),
                            (),
                        ) by {
                            if j < runs.len() - 1 {
                                assert(runs[j] == rest[j]);
                            }
                        }
                    }
                },
            }
        }
    }

    /// Where no handler of a pass moves the focus or changes the modifier
    /// keys, every handler of the pass sees them as the pass began with
    /// them, and so they are left.
    pub proof fn lemma_passed_keeps_focus(
        self,
        after: Tree<W>,
        path: Seq<usize>,
        depth: int,
        phase: Phase,
        ev: EventKind,
        seen: EventCtx,
        runs: Seq<Handling<W>>,
    )
        requires
            self.passed(after, path, depth, phase, ev, seen, runs),
            pass_keeps_focus(runs),
            seen.modifiers == seen.focus@.held,
        ensures
            runs.len() >= 1,
            forall|k: int|
                0 <= k < runs.len() ==> (#[trigger] runs[k]).sees(
                    seen.focus@.focused,
                    seen.focus@.held,
                ),
            runs.last().left.focus@.focused == seen.focus@.focused,
            runs.last().left.focus@.held == seen.focus@.held,
    {
        self.lemma_passed_hands_on(after, path, depth, phase, ev, seen, runs);
        assert forall|k: int| 0 <= k < runs.len() implies (#[trigger] runs[k]).sees(
            seen.focus@.focused,
            seen.focus@.held,
        ) by {
            Self::lemma_seen_along(seen, runs, k);
        }
        assert(runs.last().keeps_focus());
    }

    /// Along handlers that each are handed what the one before left, and
    /// that each leave the focus and the modifier keys alone, each sees
    /// them as the first did.
    pub proof fn lemma_seen_along(seen: EventCtx, runs: Seq<Handling<W>>, k: int)
        requires
            0 <= k < runs.len(),
            shown_as(*runs[0].ctx, seen),
            handed_on(runs),
            pass_keeps_focus(runs),
            seen.modifiers == seen.focus@.held,
        ensures
            runs[k].sees(seen.focus@.focused, seen.focus@.held),
        decreases k,
    {
        if k > 0 {
            Self::lemma_seen_along(seen, runs, k - 1);
            assert(runs[k - 1].keeps_focus());
            assert(shown_as(*runs[k].ctx, runs[k - 1].left));
        }
    }

    /// Where no handler of the passes moves the focus or changes the
    /// modifier keys, every handler of every pass sees the focus where it
    /// was before the first pass and is shown the modifier keys that were
    /// held then, and so they are left.
    pub proof fn lemma_ran_keeps_focus(
        self,
        after: Tree<W>,
        passes: Seq<Delivered>,
        focus: FocusState,
        runs: Seq<Seq<Handling<W>>>,
    )
        requires
            self.ran(after, passes, focus, runs),
            passes_keep_focus(runs),
        ensures
            forall|i: int, k: int|
                0 <= i < runs.len() && 0 <= k < runs[i].len() ==> (#[trigger] runs[i][k]).sees(
                    focus.focused,
                    focus.held,
                ),
            focus_left(focus, runs).focused == focus.focused,
            focus_left(focus, runs).held == focus.held,
        decreases passes.len(),
    {
        if passes.len() > 0 {
            let before = runs.drop_last();
            let left = focus_left(focus, before);
            let mid = choose|mid: Tree<W>|
                {
                    &&& self.ran(mid, passes.drop_last(), focus, before)
                    &&& #[trigger] mid.pass_ran(after, passes.last(), left, runs.last())
                };
            assert forall|i: int| 0 <= i < before.len() implies pass_keeps_focus(
                #[trigger] before[i],
            ) by {
                assert(before[i] == runs[i]);
            }
            self.lemma_ran_keeps_focus(mid, passes.drop_last(), focus, before);
            let seen = choose|seen: EventCtx|
                {
                    &&& begins(seen, passes.last(), left)
                    &&& #[trigger] mid.bare().passed(
                        after.bare(),
                        passes.last().path,
                        0,
                        passes.last().phase,
                        passes.last().kind,
                        seen,
                        runs.last(),
                    )
                };
            assert(pass_keeps_focus(runs[runs.len() - 1]));
            mid.bare().lemma_passed_keeps_focus(
                after.bare(),
                passes.last().path,
                0,
                passes.last().phase,
                passes.last().kind,
                seen,
                runs.last(),
            );
            assert forall|i: int, k: int|
                0 <= i < runs.len() && 0 <= k < runs[i].len() implies (#[trigger] runs[i][k]).sees(
                focus.focused,
                focus.held,
            ) by {
                if i < runs.len() - 1 {
                    assert(runs[i] == before[i]);
                }
            }
        }
    }

    /// Along handlers that each are handed what the one before left, and
    /// that each leave the waiting change of focus alone, each leaves the
    /// one that the first was handed.
    pub proof fn lemma_request_along(seen: EventCtx, runs: Seq<Handling<W>>, k: int)
        requires
            0 <= k < runs.len(),
            shown_as(*runs[0].ctx, seen),
            handed_on(runs),
            pass_keeps_request(runs),
        ensures
            runs[k].left.focus@.requested == seen.focus@.requested,
        decreases k,
    {
        assert(runs[k].keeps_request());
        if k > 0 {
            Self::lemma_request_along(seen, runs, k - 1);
            assert(shown_as(*runs[k].ctx, runs[k - 1].left));
        }
    }

    /// Where no handler of the passes asks for a change of focus or takes
    /// a request away, the change of focus that waits afterwards is the
    /// one that waited before.
    pub proof fn lemma_ran_keeps_request(
        self,
        after: Tree<W>,
        passes: Seq<Delivered>,
        focus: FocusState,
        runs: Seq<Seq<Handling<W>>>,
    )
        requires
            self.ran(after, passes, focus, runs),
            passes_keep_request(runs),
        ensures
            focus_left(focus, runs).requested == focus.requested,
        decreases passes.len(),
    {
        if passes.len() > 0 {
            let before = runs.drop_last();
            let left = focus_left(focus, before);
            let mid = choose|mid: Tree<W>|
                {
                    &&& self.ran(mid, passes.drop_last(), focus, before)
                    &&& #[trigger] mid.pass_ran(after, passes.last(), left, runs.last())
                };
            assert forall|i: int| 0 <= i < before.len() implies pass_keeps_request(
                #[trigger] before[i],
            ) by {
                assert(before[i] == runs[i]);
            }
            self.lemma_ran_keeps_request(mid, passes.drop_last(), focus, before);
            let seen = choose|seen: EventCtx|
                {
                    &&& begins(seen, passes.last(), left)
                    &&& #[trigger] mid.bare().passed(
                        after.bare(),
                        passes.last().path,
                        0,
                        passes.last().phase,
                        passes.last().kind,
                        seen,
                        runs.last(),
                    )
                };
            assert(pass_keeps_request(runs[runs.len() - 1]));
            mid.bare().lemma_passed_hands_on(
                after.bare(),
                passes.last().path,
                0,
                passes.last().phase,
                passes.last().kind,
                seen,
                runs.last(),
            );
            Self::lemma_request_along(seen, runs.last(), runs.last().len() - 1);
        }
    }

    /// Every run of every pass is a run of a widget's handler on the
    /// event of that pass.
    pub proof fn lemma_ran_calls(
        self,
        after: Tree<W>,
        passes: Seq<Delivered>,
        focus: FocusState,
        runs: Seq<Seq<Handling<W>>>,
    )
        requires
            self.ran(after, passes, focus, runs),
        ensures
            forall|i: int, k: int|
                0 <= i < runs.len() && 0 <= k < runs[i].len() ==> call_ensures(
                    W::event,
                    ((#[trigger] runs[i][k]).widget, runs[i][k].ctx, &passes[i].kind, runs[i][k].rt),
                    (),
                ),
        decreases passes.len(),
    {
        if passes.len() > 0 {
            let before = runs.drop_last();
            let left = focus_left(focus, before);
            let last = runs.last();
            let pass = passes.last();
            let mid = choose|mid: Tree<W>|
                {
                    &&& self.ran(mid, passes.drop_last(), focus, before)
                    &&& #[trigger] mid.pass_ran(after, pass, left, last)
                };
            self.lemma_ran_calls(mid, passes.drop_last(), focus, before);
            let seen = choose|seen: EventCtx|
                {
                    &&& begins(seen, pass, left)
                    &&& #[trigger] mid.bare().passed(
                        after.bare(),
                        pass.path,
                        0,
                        pass.phase,
                        pass.kind,
                        seen,
                        last,
                    )
                };
            mid.bare().lemma_passed_calls(after.bare(), pass.path, 0, pass.phase, pass.kind, seen, last);
            assert forall|i: int, k: int|
                0 <= i < runs.len() && 0 <= k < runs[i].len() implies call_ensures(
                W::event,
                ((#[trigger] runs[i][k]).widget, runs[i][k].ctx, &passes[i].kind, runs[i][k].rt),
                (),
            ) by {
                if i < runs.len() - 1 {
                    assert(runs[i] == before[i]);
                    assert(passes[i] == passes.drop_last()[i]);
                } else {
                    assert(runs[i] == last);
                    assert(passes[i] == pass);
                }
            }
        }
    }

    /// In every pass, every handler but the first is handed the context
    /// as the handler before it left it.
    pub proof fn lemma_ran_chain(
        self,
        after: Tree<W>,
        passes: Seq<Delivered>,
        focus: FocusState,
        runs: Seq<Seq<Handling<W>>>,
    )
        requires
            self.ran(after, passes, focus, runs),
        ensures
            forall|i: int| 0 <= i < runs.len() ==> handed_on(#[trigger] runs[i]),
        decreases passes.len(),
    {
        if passes.len() > 0 {
            let before = runs.drop_last();
            let left = focus_left(focus, before);
            let last = runs.last();
            let pass = passes.last();
            let mid = choose|mid: Tree<W>|
                {
                    &&& self.ran(mid, passes.drop_last(), focus, before)
                    &&& #[trigger] mid.pass_ran(after, pass, left, last)
                };
            self.lemma_ran_chain(mid, passes.drop_last(), focus, before);
            let seen = choose|seen: EventCtx|
                {
                    &&& begins(seen, pass, left)
                    &&& #[trigger] mid.bare().passed(
                        after.bare(),
                        pass.path,
                        0,
                        pass.phase,
                        pass.kind,
                        seen,
                        last,
                    )
                };
            mid.bare().lemma_passed_hands_on(after.bare(), pass.path, 0, pass.phase, pass.kind, seen, last);
            assert forall|i: int| 0 <= i < runs.len() implies handed_on(#[trigger] runs[i]) by {
                if i < runs.len() - 1 {
                    assert(runs[i] == before[i]);
                } else {
                    assert(runs[i] == last);
                }
            }
        }
    }

    /// A target pass runs one handler.
    pub proof fn lemma_targeted_once(
        self,
        after: Tree<W>,
        path: Seq<usize>,
        depth: int,
        ev: EventKind,
        seen: EventCtx,
        runs: Seq<Handling<W>>,
    )
        requires
            self.targeted(after, path, depth, ev, seen, runs),
        ensures
            runs.len() == 1,
        decreases path.len() - depth,
    {
        if !self.ends_here(path, depth) {
            let k = path[depth] as int;
            self.children[k].lemma_targeted_once(after.children[k], path, depth + 1, ev, seen, runs);
        }
    }

    /// Every target pass among the passes runs one handler.
    pub proof fn lemma_ran_targets_once(
        self,
        after: Tree<W>,
        passes: Seq<Delivered>,
        focus: FocusState,
        runs: Seq<Seq<Handling<W>>>,
    )
        requires
            self.ran(after, passes, focus, runs),
        ensures
            forall|i: int|
                0 <= i < runs.len() && passes[i].phase == Phase::Target ==> (#[trigger] runs[i]).len()
                    == 1,
        decreases passes.len(),
    {
        if passes.len() > 0 {
            let before = runs.drop_last();
            let left = focus_left(focus, before);
            let mid = choose|mid: Tree<W>|
                {
                    &&& self.ran(mid, passes.drop_last(), focus, before)
                    &&& #[trigger] mid.pass_ran(after, passes.last(), left, runs.last())
                };
            self.lemma_ran_targets_once(mid, passes.drop_last(), focus, before);
            let seen = choose|seen: EventCtx|
                {
                    &&& begins(seen, passes.last(), left)
                    &&& #[trigger] mid.bare().passed(
                        after.bare(),
                        passes.last().path,
                        0,
                        passes.last().phase,
                        passes.last().kind,
                        seen,
                        runs.last(),
                    )
                };
            if passes.last().phase == Phase::Target {
                mid.bare().lemma_targeted_once(
                    after.bare(),
                    passes.last().path,
                    0,
                    passes.last().kind,
                    seen,
                    runs.last(),
                );
            }
            assert forall|i: int|
                0 <= i < runs.len() && passes[i].phase == Phase::Target implies (#[trigger] runs[i]).len()
                == 1 by {
                if i < runs.len() - 1 {
                    assert(runs[i] == before[i]);
                    assert(passes[i] == passes.drop_last()[i]);
                }
            }
        }
    }

    /// Every pass runs at least one handler. The first handler of the
    /// first pass is handed a focus manager that holds `focus`; the first
    /// handler of every further pass is handed one that holds what the
    /// last handler of the pass before it left. Each is shown the
    /// modifier keys that its focus manager holds.
    pub proof fn lemma_ran_hands_on(
        self,
        after: Tree<W>,
        passes: Seq<Delivered>,
        focus: FocusState,
        runs: Seq<Seq<Handling<W>>>,
    )
        requires
            self.ran(after, passes, focus, runs),
        ensures
            forall|i: int|
                0 <= i < runs.len() ==> {
                    &&& (#[trigger] runs[i]).len() >= 1
                    &&& runs[i][0].ctx.focus@ == focus_left(focus, runs.take(i))
                    &&& runs[i][0].ctx.modifiers == focus_left(focus, runs.take(i)).held
                    &&& runs[i][0].ctx.phase == passes[i].phase
                    &&& runs[i][0].ctx.path@ == passes[i].path
                },
        decreases passes.len(),
    {
        if passes.len() > 0 {
            let before = runs.drop_last();
            let left = focus_left(focus, before);
            let mid = choose|mid: Tree<W>|
                {
                    &&& self.ran(mid, passes.drop_last(), focus, before)
                    &&& #[trigger] mid.pass_ran(after, passes.last(), left, runs.last())
                };
            self.lemma_ran_hands_on(mid, passes.drop_last(), focus, before);
            let seen = choose|seen: EventCtx|
                {
                    &&& begins(seen, passes.last(), left)
                    &&& #[trigger] mid.bare().passed(
                        after.bare(),
                        passes.last().path,
                        0,
                        passes.last().phase,
                        passes.last().kind,
                        seen,
                        runs.last(),
                    )
                };
            mid.bare().lemma_passed_hands_on(
                after.bare(),
                passes.last().path,
                0,
                passes.last().phase,
                passes.last().kind,
                seen,
                runs.last(),
            );
            assert forall|i: int| 0 <= i < runs.len() implies {
                &&& (#[trigger] runs[i]).len() >= 1
                &&& runs[i][0].ctx.focus@ == focus_left(focus, runs.take(i))
                &&& runs[i][0].ctx.modifiers == focus_left(focus, runs.take(i)).held
                &&& runs[i][0].ctx.phase == passes[i].phase
                &&& runs[i][0].ctx.path@ == passes[i].path
            } by {
                if i < runs.len() - 1 {
                    assert(runs[i] == before[i]);
                    assert(runs.take(i) =~= before.take(i));
                    assert(passes[i] == passes.drop_last()[i]);
                } else {
                    assert(runs.take(i) =~= before);
                }
            }
        }
    }

    /// What ran goes by the trees without what only their roots record.
    pub proof fn lemma_ran_bare(
        self,
        after: Tree<W>,
        other: Tree<W>,
        passes: Seq<Delivered>,
        focus: FocusState,
        runs: Seq<Seq<Handling<W>>>,
    )
        requires
            self.ran(after, passes, focus, runs),
            other.bare() == after.bare(),
        ensures
            self.ran(other, passes, focus, runs),
    {
        if passes.len() > 0 {
            let left = focus_left(focus, runs.drop_last());
            let mid = choose|mid: Tree<W>|
                {
                    &&& self.ran(mid, passes.drop_last(), focus, runs.drop_last())
                    &&& #[trigger] mid.pass_ran(after, passes.last(), left, runs.last())
                };
            assert(mid.pass_ran(other, passes.last(), left, runs.last()));
        }
    }

    /// Nothing ran where nothing changed.
    pub proof fn lemma_ran_nothing(self, after: Tree<W>, focus: FocusState)
        requires
            after.bare() == self.bare(),
        ensures
            self.ran(after, Seq::empty(), focus, Seq::empty()),
            exists|runs: Seq<Seq<Handling<W>>>|
                runs.len() == 0 && #[trigger] self.ran(after, Seq::empty(), focus, runs),
    {
        assert(self.ran(after, Seq::empty(), focus, Seq::empty()));
    }

    /// One pass is a sequence of one.
    pub proof fn lemma_ran_one(
        self,
        after: Tree<W>,
        pass: Delivered,
        focus: FocusState,
        runs: Seq<Handling<W>>,
    )
        requires
            self.pass_ran(after, pass, focus, runs),
        ensures
            self.ran(after, seq![pass], focus, seq![runs]),
            focus_left(focus, seq![runs]) == runs.last().left.focus@,
    {
        let passes = seq![pass];
        let all = seq![runs];
        assert(passes.drop_last() =~= Seq::<Delivered>::empty());
        assert(all.drop_last() =~= Seq::<Seq<Handling<W>>>::empty());
        assert(self.ran(self, passes.drop_last(), focus, all.drop_last()));
        assert(passes.last() == pass);
        assert(all.last() == runs);
        assert(all.len() == passes.len());
        assert(focus_left(focus, all.drop_last()) == focus);
        assert(self.pass_ran(after, passes.last(), focus, all.last()));
        assert(self.ran(after, passes, focus, all));
    }

    /// Every pass that ran ran at least one handler.
    pub proof fn lemma_ran_handlers(
        self,
        after: Tree<W>,
        passes: Seq<Delivered>,
        focus: FocusState,
        runs: Seq<Seq<Handling<W>>>,
    )
        requires
            self.ran(after, passes, focus, runs),
        ensures
            runs.len() > 0 ==> runs.last().len() >= 1,
    {
    }

    /// Passes that ran one after the other ran as one sequence.
    pub proof fn lemma_ran_twice(
        self,
        between: Tree<W>,
        after: Tree<W>,
        first: Seq<Delivered>,
        second: Seq<Delivered>,
        focus: FocusState,
        first_runs: Seq<Seq<Handling<W>>>,
        second_runs: Seq<Seq<Handling<W>>>,
    )
        requires
            self.ran(between, first, focus, first_runs),
            between.ran(after, second, focus_left(focus, first_runs), second_runs),
        ensures
            self.ran(after, first + second, focus, first_runs + second_runs),
            focus_left(focus, first_runs + second_runs) == focus_left(
                focus_left(focus, first_runs),
                second_runs,
            ),
        decreases second.len(),
    {
        let between_focus = focus_left(focus, first_runs);
        if second.len() == 0 {
            assert(first + second =~= first);
            assert(first_runs + second_runs =~= first_runs);
            self.lemma_ran_bare(between, after, first, focus, first_runs);
        } else {
            let left = focus_left(between_focus, second_runs.drop_last());
            let mid = choose|mid: Tree<W>|
                {
                    &&& between.ran(mid, second.drop_last(), between_focus, second_runs.drop_last())
                    &&& #[trigger] mid.pass_ran(after, second.last(), left, second_runs.last())
                };
            self.lemma_ran_twice(
                between,
                mid,
                first,
                second.drop_last(),
                focus,
                first_runs,
                second_runs.drop_last(),
            );
            assert((first + second).drop_last() =~= first + second.drop_last());
            assert((first_runs + second_runs).drop_last() =~= first_runs
                + second_runs.drop_last());
            assert((first + second).last() == second.last());
            assert((first_runs + second_runs).last() == second_runs.last());
            assert(mid.pass_ran(
                after,
                (first + second).last(),
                focus_left(focus, (first_runs + second_runs).drop_last()),
                (first_runs + second_runs).last(),
            ));
        }
    }
}

} // verus!
