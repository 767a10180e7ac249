//! What a paint pass does, widget by widget.

use vstd::prelude::*;
use crate::layout::dirty::Dirty;
use crate::layout::tree::Tree;
use crate::signals::{Runtime, Subscriber};
use crate::widgets::base::Widget;

verus! {

/// One run of a widget's painting: what it was handed, and what it left.
pub struct Painting<'r, W: Widget> {
    /// The widget, as handed to the painting.
    pub widget: &'r mut W,
    /// The runtime, as handed to the painting.
    pub rt: &'r mut Runtime<W::Value>,
    /// The surroundings, as handed to the painting.
    pub env: &'r mut W::Env,
    /// The widget as the painting left it.
    pub after: W,
    /// The runtime as the painting left it.
    pub left: Runtime<W::Value>,
}

/// The paintings of one paint pass, in the shape of the tree that was
/// painted: that of the node itself, if it was painted, and those below
/// each of its children.
pub struct Paints<'r, W: Widget> {
    pub own: Option<Painting<'r, W>>,
    pub below: Seq<Paints<'r, W>>,
}

impl<'r, W: Widget> Paints<'r, W> {
    /// The painting of the node that `path` leads to, if that node was
    /// painted.
    pub open spec fn at(self, path: Seq<usize>) -> Option<Painting<'r, W>>
        decreases path.len(),
    {
        if path.len() == 0 {
            self.own
        } else if path[0] < self.below.len() {
            self.below[path[0] as int].at(path.skip(1))
        } else {
            None
        }
    }

    /// Every painting left the stack of running subscribers as it found
    /// it.
    pub open spec fn keeps_stack(self) -> bool {
        forall|path: Seq<usize>|
            (#[trigger] self.at(path)).is_some() ==> self.at(path).unwrap().left.stack()
                == self.at(path).unwrap().rt.stack()
    }
}

/// Every painting of the first `n` of `below` left the stack of running
/// subscribers as it found it.
pub open spec fn keep_stack<W: Widget>(below: Seq<Paints<W>>, n: int) -> bool {
    forall|j: int| 0 <= j < n ==> (#[trigger] below[j]).keeps_stack()
}

/// The paintings of one more child keep the stack where those before
/// did and its own do.
pub proof fn lemma_keep_more<W: Widget>(below: Seq<Paints<W>>, made: Paints<W>)
    ensures
        keep_stack(below.push(made), below.len() as int + 1) ==> keep_stack(below, below.len() as int)
            && made.keeps_stack(),
{
    let more = below.push(made);
    if keep_stack(more, below.len() as int + 1) {
        assert forall|j: int| 0 <= j < below.len() implies (#[trigger] below[j]).keeps_stack() by {
            assert(more[j] == below[j]);
        }
        assert(more[below.len() as int] == made);
    }
}

/// Where the paintings of a pass keep the stack, so does that of the
/// root and so do those of every child.
pub proof fn lemma_keep_whole<W: Widget>(paints: Paints<W>)
    requires
        paints.below.len() <= usize::MAX,
    ensures
        paints.keeps_stack() ==> {
            &&& paints.own.is_some() ==> paints.own.unwrap().left.stack()
                == paints.own.unwrap().rt.stack()
            &&& keep_stack(paints.below, paints.below.len() as int)
        },
{
    if paints.keeps_stack() {
        assert(paints.at(Seq::<usize>::empty()) == paints.own);
        assert forall|j: int| 0 <= j < paints.below.len() implies
            (#[trigger] paints.below[j]).keeps_stack() by {
            assert forall|path: Seq<usize>| (#[trigger] paints.below[j].at(path)).is_some() implies paints.below[j].at(
                path,
            ).unwrap().left.stack() == paints.below[j].at(path).unwrap().rt.stack() by {
                let whole = seq![j as usize] + path;
                assert(whole.skip(1) =~= path);
                assert(whole[0] == j as usize);
                assert(paints.at(whole) == paints.below[j].at(path));
            }
        }
    }
}

/// There is a sequence of no paintings.
pub proof fn lemma_no_paints<'r, W: Widget>()
    ensures
        exists|none: Seq<Paints<'r, W>>| #[trigger] none.len() == 0,
{
    assert(Seq::<Paints<'r, W>>::empty().len() == 0);
}

impl<W: Widget> Tree<W> {
    /// `run` painted the root of `self`: it was handed the root's widget,
    /// the root's rectangle, and a runtime in which the root is the
    /// running subscriber.
    pub open spec fn paints(self, run: Painting<W>) -> bool {
        &&& *run.widget == self.widget
        &&& run.rt.stack().len() > 0
        &&& run.rt.stack().last() == Subscriber::Node(self.id)
        &&& call_ensures(W::paint, (run.widget, self.layout_rect, run.rt, run.env), ())
    }

    /// `after` is what the paint pass `paints` makes of `self`. Every node
    /// that was `paint_dirty` was painted once and has the widget that
    /// its painting left; every other node has the widget that it had,
    /// and was not painted. No node is `paint_dirty` any more, and nothing
    /// else differs.
    pub open spec fn painted_as(self, after: Tree<W>, paints: Paints<W>) -> bool
        decreases self,
    {
        &&& after.id == self.id
        &&& after.layout_rect == self.layout_rect
        &&& after.cached_size == self.cached_size
        &&& after.style == self.style
        &&& after.hover_path == self.hover_path
        &&& after.history == self.history
        &&& after.dirty == (Dirty {
            self_dirty: self.dirty.self_dirty,
            child_dirty: self.dirty.child_dirty,
            paint_dirty: false,
        })
        &&& if self.dirty.paint_dirty {
            &&& paints.own.is_some()
            &&& self.paints(paints.own.unwrap())
            &&& after.widget == paints.own.unwrap().after
        } else {
            &&& paints.own.is_none()
            &&& after.widget == self.widget
        }
        &&& after.children.len() == self.children.len()
        &&& paints.below.len() == self.children.len()
        &&& forall|i: int|
            0 <= i < self.children.len() ==> (#[trigger] self.children[i]).painted_as(
                after.children[i],
                paints.below[i],
            )
    }

    /// A paint pass that painted as `paints` tells is a paint pass.
    pub proof fn lemma_painted_as(self, after: Tree<W>, paints: Paints<W>)
        requires
            self.painted_as(after, paints),
        ensures
            self.painted(after),
        decreases self,
    {
        assert forall|i: int| 0 <= i < self.children.len() implies (#[trigger] self.children[i]).painted(
            after.children[i],
        ) by {
            self.children[i].lemma_painted_as(after.children[i], paints.below[i]);
        }
    }
}

} // verus!
