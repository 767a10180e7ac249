pub mod events;

use vstd::prelude::*;
use crate::layout::measuring::Measures;
use crate::layout::node::Node;
use crate::layout::painting::Paints;
use crate::layout::passes::{focus_left, passes_keep_stack, Handling};
use crate::layout::rect::Rect;
use crate::layout::routing::{asked, held_after, without_request};
use crate::layout::tree::Tree;
use crate::signals::{NodeId, Runtime};
use crate::units::Vec2;
use crate::widgets::base::Widget;
use crate::widgets::build_context::BuildCtx;
use crate::windowing::events::{FocusManager, Modifiers, WindowEvent};

verus! {

/// What one window holds: the tree of its widgets and its focus.
pub struct Window<W: Widget> {
    pub root: Node<W>,
    pub focus: FocusManager,
}

/// Makes windows.
pub struct WindowBuilder;

impl WindowBuilder {
    /// A window of the size `size` that shows `widget`: the widget's tree,
    /// laid at the window's rectangle, with nothing focused.
    pub fn build<W: Widget>(&self, widget: W, size: Vec2, rt: &mut Runtime<W::Value>) -> (window:
        Window<W>)
        ensures
            window.root@.widget == widget,
            window.root@.built(usize::MAX as int),
            window.root@.is_fresh(Rect { origin: Vec2::spec_zero(), size }),
            window.root@.numbered_from(old(rt).next_node_id() as int),
            window.focus.focused() == Seq::<usize>::empty(),
            window.focus.requested().is_none(),
            window.focus.held() == Modifiers::spec_none(),
            final(rt).next_node_id() == (old(rt).next_node_id() + window.root@.count())
                % 0x1_0000_0000_0000_0000,
            final(rt).same_signals(*old(rt)),
            final(rt).stack() == old(rt).stack(),
            final(rt).dirty_queue() == old(rt).dirty_queue(),
            final(rt).next_effect_id() == old(rt).next_effect_id(),
    {
        let mut ctx = BuildCtx;
        let root = Node::new(widget, Rect::new(Vec2::zero(), size), &mut ctx, rt);
        Window { root, focus: FocusManager::default() }
    }
}

impl<W: Widget> Window<W> {
    /// Takes every node that waits in the queue of dirty nodes and marks
    /// it dirty in the tree, the oldest first. Returns how many of them
    /// the tree holds.
    pub fn mark_pending(&mut self, rt: &mut Runtime<W::Value>) -> (found: usize)
        ensures
            final(self).root@ == old(self).root@.marked_all(
                match old(rt).dirty_queue() {
                    Some(q) => q,
                    None => Seq::empty(),
                },
            ),
            found == old(self).root@.held_among(
                match old(rt).dirty_queue() {
                    Some(q) => q,
                    None => Seq::empty(),
                },
            ),
            final(rt).dirty_queue() == match old(rt).dirty_queue() {
                Some(_) => Some(Seq::<NodeId>::empty()),
                None => None::<Seq<NodeId>>,
            },
            final(rt).same_signals(*old(rt)),
            final(rt).stack() == old(rt).stack(),
            final(rt).next_node_id() == old(rt).next_node_id(),
            final(rt).next_effect_id() == old(rt).next_effect_id(),
            final(self).focus == old(self).focus,
    {
        let waiting = rt.drain_dirty();
        let n = waiting.len();
        let mut found: usize = 0;
        let mut i: usize = 0;
        while i < n
            invariant
                i <= n,
                found <= i,
                n == waiting@.len(),
                self.root@ == old(self).root@.marked_all(waiting@.take(i as int)),
                found == old(self).root@.held_among(waiting@.take(i as int)),
                self.focus == old(self).focus,
            decreases n - i,
        {
            proof {
                assert(waiting@.take(i + 1).drop_last() =~= waiting@.take(i as int));
                old(self).root@.lemma_marked_all_keeps_ids(
                    waiting@.take(i as int),
                    waiting@[i as int],
                );
            }
            if self.root.mark_dirty_by_id(waiting[i]) {
                found += 1;
            }
            i += 1;
        }
        proof {
            assert(waiting@.take(n as int) =~= waiting@);
        }
        found
    }

    /// Lays the tree out for the width `width`, then paints what is to be
    /// painted. Returns the size of the root.
    pub fn redraw<'r>(
        &mut self,
        width: i32,
        rt: &mut Runtime<W::Value>,
        env: &mut W::Env,
    ) -> (size: Vec2)
        ensures
            exists|laid: Tree<W>, calls: Measures<'r, W>, paints: Paints<'r, W>|
                {
                    &&& #[trigger] old(self).root@.laid_out(width, laid, calls)
                    &&& forall|path: Seq<usize>|
                        (#[trigger] calls.at(path)).is_some() ==> *final(calls.at(path).unwrap().rt)
                            == calls.at(path).unwrap().left
                    &&& #[trigger] laid.painted_as(final(self).root@, paints)
                    &&& forall|path: Seq<usize>|
                        (#[trigger] paints.at(path)).is_some() ==> {
                            &&& *final(paints.at(path).unwrap().widget) == paints.at(
                                path,
                            ).unwrap().after
                            &&& *final(paints.at(path).unwrap().rt) == paints.at(path).unwrap().left
                        }
                    &&& size == laid.cached_size
                    &&& calls.keeps_stack() && paints.keeps_stack() ==> final(rt).stack() == old(
                        rt,
                    ).stack()
                },
            final(self).root@.clean(),
            final(self).focus == old(self).focus,
    {
        let size = self.root.layout(width, rt, env);
        let ghost laid = self.root@;
        self.root.collect(rt, env);
        proof {
            laid.lemma_painted_clean(self.root@);
        }
        size
    }

    /// Gives the window the size `size`: the root is put at the window's
    /// new rectangle and is to be measured and painted again.
    pub fn resized(&mut self, size: Vec2)
        ensures
            final(self).root@ == old(self).root@.with_rect(
                Rect { origin: Vec2::spec_zero(), size },
            ).marked_dirty(),
            final(self).focus == old(self).focus,
    {
        self.root.set_rect(Rect::new(Vec2::zero(), size));
        self.root.mark_dirty();
    }

    /// Routes one event of the window into the tree, with the window's
    /// own focus.
    pub fn route<'r>(&mut self, event: &WindowEvent, rt: &mut Runtime<W::Value>)
        ensures
            old(self).root@.unmoved(final(self).root@),
            final(self).root@.hover_path == old(self).root@.hover_after_event(*event),
            old(self).root@.drops(*event, old(self).focus.focused()) ==> {
                &&& final(self).root@ == old(self).root@
                &&& final(self).focus == old(self).focus
                &&& *final(rt) == *old(rt)
            },
            !old(self).root@.drops(*event, old(self).focus.focused()) ==> {
                &&& final(self).focus.held() == held_after(*event, old(self).focus.held())
                &&& exists|
                    first: Seq<Seq<Handling<'r,
                    W>>>,
                    second: Seq<Seq<Handling<'r,
                    W>>>,
                    mid: Tree<W>,
                |
                    {
                        &&& #[trigger] old(self).root@.ran(
                            mid,
                            old(self).root@.event_passes(*event, old(self).focus.focused()),
                            old(self).focus@,
                            first,
                        )
                        &&& #[trigger] mid.ran(
                            final(self).root@,
                            old(self).root@.focus_passes(
                                old(self).focus.focused(),
                                asked(*event, old(self).focus@, first),
                            ),
                            without_request(focus_left(old(self).focus@, first)),
                            second,
                        )
                        &&& forall|i: int, k: int|
                            0 <= i < first.len() && 0 <= k < first[i].len() ==> {
                                &&& *final((#[trigger] first[i][k]).widget) == first[i][k].after
                                &&& *final(first[i][k].ctx) == first[i][k].left
                                &&& *final(first[i][k].rt) == first[i][k].rt_left
                            }
                        &&& forall|i: int, k: int|
                            0 <= i < second.len() && 0 <= k < second[i].len() ==> {
                                &&& *final((#[trigger] second[i][k]).widget) == second[i][k].after
                                &&& *final(second[i][k].ctx) == second[i][k].left
                                &&& *final(second[i][k].rt) == second[i][k].rt_left
                            }
                        &&& final(self).root@.history == old(self).root@.history + old(
                            self,
                        ).root@.event_passes(*event, old(self).focus.focused()) + old(
                            self,
                        ).root@.focus_passes(
                            old(self).focus.focused(),
                            asked(*event, old(self).focus@, first),
                        )
                        &&& final(self).focus.focused() == old(self).root@.focus_after(
                            old(self).focus.focused(),
                            asked(*event, old(self).focus@, first),
                        )
                        &&& final(self).focus.requested() == focus_left(
                            without_request(focus_left(old(self).focus@, first)),
                            second,
                        ).requested
                        &&& passes_keep_stack(first) && passes_keep_stack(second)
                            ==> final(rt).stack() == old(rt).stack()
                    }
            },
    {
        self.root.route_window_event(event, &mut self.focus, rt);
    }
}

} // verus!
