//! What a layout pass asks of the widgets, measurement by measurement.

use vstd::prelude::*;
use crate::signals::Runtime;
use crate::units::Vec2;
use crate::widgets::base::Widget;

verus! {

/// One measurement of a widget: what it was handed, what it found and
/// what it left.
pub struct Measuring<'r, W: Widget> {
    /// The runtime, as handed to the measurement.
    pub rt: &'r mut Runtime<W::Value>,
    /// The surroundings, as handed to the measurement.
    pub env: &'r mut W::Env,
    /// The size that the measurement found.
    pub size: Vec2,
    /// The runtime as the measurement left it.
    pub left: Runtime<W::Value>,
}

/// The measurements of one layout pass, in the shape of the tree that was
/// laid out: that of the node itself, if it was measured, and those below
/// each of its children. Below a node that the pass left alone there are
/// none.
pub struct Measures<'r, W: Widget> {
    pub own: Option<Measuring<'r, W>>,
    pub below: Seq<Measures<'r, W>>,
}

impl<'r, W: Widget> Measures<'r, W> {
    /// The measurement of the node that `path` leads to, if that node was
    /// measured.
    pub open spec fn at(self, path: Seq<usize>) -> Option<Measuring<'r, W>>
        decreases path.len(),
    {
        if path.len() == 0 {
            self.own
        } else if path[0] < self.below.len() {
            self.below[path[0] as int].at(path.skip(1))
        } else {
            None
        }
    }

    /// No widget was measured.
    pub open spec fn is_none(self) -> bool {
        self.own.is_none() && self.below.len() == 0
    }

    /// Every measurement left the stack of running subscribers as it
    /// found it.
    pub open spec fn keeps_stack(self) -> bool {
        forall|path: Seq<usize>|
            (#[trigger] self.at(path)).is_some() ==> self.at(path).unwrap().left.stack()
                == self.at(path).unwrap().rt.stack()
    }
}

/// Every measurement below the first `n` children left the stack of
/// running subscribers as it found it.
pub open spec fn measures_keep_stack<W: Widget>(below: Seq<Measures<W>>, n: int) -> bool {
    forall|j: int| 0 <= j < n ==> (#[trigger] below[j]).keeps_stack()
}

/// The measurements below one more child keep the stack where those
/// before did and its own do.
pub proof fn lemma_measures_keep_more<W: Widget>(below: Seq<Measures<W>>, made: Measures<W>)
    ensures
        measures_keep_stack(below.push(made), below.len() as int + 1) ==> measures_keep_stack(
            below,
            below.len() as int,
        ) && made.keeps_stack(),
{
    let more = below.push(made);
    if measures_keep_stack(more, below.len() as int + 1) {
        assert forall|j: int| 0 <= j < below.len() implies (#[trigger] below[j]).keeps_stack() by {
            assert(more[j] == below[j]);
        }
        assert(more[below.len() as int] == made);
    }
}

/// Where the measurements of a pass keep the stack, so does that of the
/// root and so do those below every child.
pub proof fn lemma_measures_keep_whole<W: Widget>(calls: Measures<W>)
    requires
        calls.below.len() <= usize::MAX,
    ensures
        calls.keeps_stack() ==> {
            &&& calls.own.is_some() ==> calls.own.unwrap().left.stack()
                == calls.own.unwrap().rt.stack()
            &&& measures_keep_stack(calls.below, calls.below.len() as int)
        },
{
    if calls.keeps_stack() {
        assert(calls.at(Seq::<usize>::empty()) == calls.own);
        assert forall|j: int| 0 <= j < calls.below.len() implies
            (#[trigger] calls.below[j]).keeps_stack() by {
            assert forall|path: Seq<usize>|
                (#[trigger] calls.below[j].at(path)).is_some() implies calls.below[j].at(
                path,
            ).unwrap().left.stack() == calls.below[j].at(path).unwrap().rt.stack() by {
                let whole = seq![j as usize] + path;
                assert(whole.skip(1) =~= path);
                assert(whole[0] == j as usize);
                assert(calls.at(whole) == calls.below[j].at(path));
            }
        }
    }
}

/// There is a sequence of no measurements.
pub proof fn lemma_no_measures<'r, W: Widget>()
    ensures
        exists|none: Seq<Measures<'r, W>>| #[trigger] none.len() == 0,
{
    assert(Seq::<Measures<'r, W>>::empty().len() == 0);
}

/// Where nothing was measured, nothing is found at any path.
pub proof fn lemma_none_at<W: Widget>(calls: Measures<W>, path: Seq<usize>)
    requires
        calls.is_none(),
    ensures
        calls.at(path).is_none(),
{
}

} // verus!
