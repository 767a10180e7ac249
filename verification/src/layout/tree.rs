//! The tree as the contracts see it: a node's fields as plain values and
//! its children as a sequence of trees.

use vstd::prelude::*;
use crate::layout::block;
use crate::layout::dirty::Dirty;
use crate::layout::flexbox;
use crate::layout::grid;
use crate::layout::measuring::{Measures, Measuring};
use crate::layout::rect::Rect;
use crate::signals::{NodeId, Runtime, Subscriber};
use crate::style::properties::{Display, Style};
use crate::units::{saturate, Vec2};
use crate::widgets::base::Widget;
use crate::widgets::build_context::BuildCtx;
use crate::windowing::events::Delivered;

verus! {

/// What a node and the nodes below it hold.
#[verifier::ext_equal]
pub struct Tree<W> {
    pub id: NodeId,
    pub widget: W,
    pub children: Seq<Tree<W>>,
    pub layout_rect: Rect,
    pub cached_size: Vec2,
    /// The style that the widget gave when it was last asked.
    pub style: Style,
    pub dirty: Dirty,
    pub hover_path: Seq<usize>,
    pub history: Seq<Delivered>,
}

impl<W: Widget> Tree<W> {
    /// The number of nodes in the tree.
    pub open spec fn count(self) -> nat
        decreases self,
    {
        1 + Self::count_first(self.children, self.children.len() as int)
    }

    /// The number of nodes in the first `n` of `trees`.
    pub open spec fn count_first(trees: Seq<Tree<W>>, n: int) -> nat
        decreases trees, n,
    {
        if n <= 0 || n > trees.len() {
            0
        } else {
            Self::count_first(trees, n - 1) + trees[n - 1].count()
        }
    }

    /// The tree is as it was built: every node lies at `layout`, has no
    /// size yet and the default style, is stale in every respect, and has
    /// neither a hover path nor a history.
    pub open spec fn is_fresh(self, layout: Rect) -> bool
        decreases self,
    {
        &&& self.layout_rect == layout
        &&& self.cached_size == Vec2::spec_zero()
        &&& self.style == Style::spec_default()
        &&& self.dirty == (Dirty { self_dirty: true, child_dirty: true, paint_dirty: true })
        &&& self.hover_path == Seq::<usize>::empty()
        &&& self.history == Seq::<Delivered>::empty()
        &&& forall|i: int|
            0 <= i < self.children.len() ==> (#[trigger] self.children[i]).is_fresh(layout)
    }

    /// The identifiers of the tree are consecutive from `start` on, in the
    /// order in which a walk from the root meets the nodes, each node
    /// before its children. After the last 64-bit number comes zero.
    pub open spec fn numbered_from(self, start: int) -> bool
        decreases self,
    {
        &&& self.id.value() == start % 0x1_0000_0000_0000_0000
        &&& forall|i: int|
            0 <= i < self.children.len() ==> (#[trigger] self.children[i]).numbered_from(
                start + 1 + Self::count_first(self.children, i),
            )
    }

    /// The tree has at most `levels` levels of nodes below its root.
    pub open spec fn no_deeper_than(self, levels: int) -> bool
        decreases self,
    {
        &&& levels <= 0 ==> self.children.len() == 0
        &&& forall|i: int|
            0 <= i < self.children.len() ==> (#[trigger] self.children[i]).no_deeper_than(
                levels - 1,
            )
    }

    /// The tree was built from the widget of its root, `levels` levels
    /// deep: the children of every node are the nodes of the widgets that
    /// the node's widget built, in their order, each built in the same
    /// way; a node on the last level has no children.
    pub open spec fn built(self, levels: int) -> bool
        decreases self,
    {
        if levels <= 0 {
            self.children.len() == 0
        } else {
            exists|ctx: &mut BuildCtx, kids: Vec<W>|
                {
                    &&& #[trigger] call_ensures(W::build, (&self.widget, ctx), kids)
                    &&& self.children.len() == kids@.len()
                    &&& forall|i: int|
                        0 <= i < self.children.len() ==> {
                            &&& (#[trigger] self.children[i]).widget == kids@[i]
                            &&& self.children[i].built(levels - 1)
                        }
                }
        }
    }

    /// The `trees` are as they were built, and numbered one after the
    /// other from `start` on.
    #[verifier::opaque]
    pub open spec fn grown(trees: Seq<Tree<W>>, layout: Rect, start: int) -> bool {
        forall|k: int|
            0 <= k < trees.len() ==> {
                &&& (#[trigger] trees[k]).is_fresh(layout)
                &&& trees[k].numbered_from(start + Self::count_first(trees, k))
            }
    }

    /// One more tree, numbered from where the others end, keeps a
    /// sequence of trees grown.
    pub proof fn lemma_grown_push(
        trees: Seq<Tree<W>>,
        child: Tree<W>,
        layout: Rect,
        start: int,
        next: int,
    )
        requires
            Self::grown(trees, layout, start),
            child.is_fresh(layout),
            child.numbered_from(next),
            next % 0x1_0000_0000_0000_0000 == (start + Self::count_first(trees, trees.len() as int))
                % 0x1_0000_0000_0000_0000,
        ensures
            Self::grown(trees.push(child), layout, start),
            Self::count_first(trees.push(child), trees.len() as int + 1) == Self::count_first(
                trees,
                trees.len() as int,
            ) + child.count(),
    {
        reveal(Tree::grown);
        let more = trees.push(child);
        assert forall|k: int| 0 <= k <= trees.len() implies #[trigger] Self::count_first(more, k)
            == Self::count_first(trees, k) by {
            Self::lemma_count_prefix(trees, more, k);
        }
        Self::lemma_renumber(child, next, start + Self::count_first(trees, trees.len() as int));
        assert forall|k: int| 0 <= k < more.len() implies {
            &&& (#[trigger] more[k]).is_fresh(layout)
            &&& more[k].numbered_from(start + Self::count_first(more, k))
        } by {
            if k < trees.len() {
                assert(more[k] == trees[k]);
            }
        }
    }

    /// The nodes of a prefix are counted alike in two sequences that agree
    /// on it.
    pub proof fn lemma_count_prefix(a: Seq<Tree<W>>, b: Seq<Tree<W>>, n: int)
        requires
            0 <= n <= a.len(),
            n <= b.len(),
            forall|k: int| 0 <= k < n ==> a[k] == b[k],
        ensures
            Self::count_first(a, n) == Self::count_first(b, n),
        decreases n,
    {
        if n > 0 {
            Self::lemma_count_prefix(a, b, n - 1);
        }
    }

    /// Numbering goes by the identifiers alone: two starts that stand for
    /// the same identifier number the same trees.
    pub proof fn lemma_renumber(tree: Tree<W>, a: int, b: int)
        requires
            tree.numbered_from(a),
            a % 0x1_0000_0000_0000_0000 == b % 0x1_0000_0000_0000_0000,
        ensures
            tree.numbered_from(b),
        decreases tree,
    {
        assert forall|i: int| 0 <= i < tree.children.len() implies (
        #[trigger] tree.children[i]).numbered_from(
            b + 1 + Self::count_first(tree.children, i),
        ) by {
            Self::lemma_renumber(
                tree.children[i],
                a + 1 + Self::count_first(tree.children, i),
                b + 1 + Self::count_first(tree.children, i),
            );
        }
    }

    /// The tree with `paint_dirty` set at its root and nothing else changed.
    pub open spec fn invalidated(self) -> Tree<W> {
        Tree {
            dirty: Dirty {
                self_dirty: self.dirty.self_dirty,
                child_dirty: self.dirty.child_dirty,
                paint_dirty: true,
            },
            ..self
        }
    }

    /// The tree with its root put at `r`: unchanged where the root lies at
    /// `r` already; moved to `r`, to be painted again and to lay its
    /// children out again otherwise.
    pub open spec fn with_rect(self, r: Rect) -> Tree<W> {
        if self.layout_rect == r {
            self
        } else {
            Tree {
                layout_rect: r,
                dirty: Dirty {
                    self_dirty: self.dirty.self_dirty,
                    child_dirty: true,
                    paint_dirty: true,
                },
                ..self
            }
        }
    }

    /// Putting a node where it lies changes nothing: no dirty flag is
    /// set on it.
    pub proof fn lemma_same_rect_changes_nothing(self)
        ensures
            self.with_rect(self.layout_rect) == self,
            self.with_rect(self.layout_rect).dirty == self.dirty,
    {
    }

    /// Putting a node elsewhere has it painted again and has it lay its
    /// children out again; whether it is to be measured again stays as it
    /// was.
    pub proof fn lemma_moved_rect_dirties(self, r: Rect)
        requires
            r != self.layout_rect,
        ensures
            self.with_rect(r).layout_rect == r,
            self.with_rect(r).dirty.paint_dirty,
            self.with_rect(r).dirty.child_dirty,
            self.with_rect(r).dirty.self_dirty == self.dirty.self_dirty,
    {
    }

    /// The tree with its root set to lay its children out again.
    pub open spec fn child_dirtied(self) -> Tree<W> {
        Tree {
            dirty: Dirty {
                self_dirty: self.dirty.self_dirty,
                child_dirty: true,
                paint_dirty: self.dirty.paint_dirty,
            },
            ..self
        }
    }

    /// The tree with its root set to be measured and painted again.
    pub open spec fn marked_dirty(self) -> Tree<W> {
        Tree {
            dirty: Dirty {
                self_dirty: true,
                child_dirty: self.dirty.child_dirty,
                paint_dirty: true,
            },
            ..self
        }
    }

    /// Some node of the tree has the identifier `target`.
    pub open spec fn holds(self, target: NodeId) -> bool
        decreases self,
    {
        self.id == target || exists|i: int|
            0 <= i < self.children.len() && (#[trigger] self.children[i]).holds(target)
    }

    /// The first child at or after `from` whose tree holds `target`; the
    /// number of children where there is none.
    pub open spec fn holder_from(self, target: NodeId, from: int) -> int
        decreases self.children.len() - from,
    {
        if from < 0 || from >= self.children.len() {
            self.children.len() as int
        } else if self.children[from].holds(target) {
            from
        } else {
            self.holder_from(target, from + 1)
        }
    }

    /// The tree after the node with the identifier `target` was marked
    /// dirty: the first such node that a walk from the root meets, each
    /// node before its children and the children in their order, is to be
    /// measured and painted again, and every node above it is to be
    /// painted again. Without such a node the tree is unchanged.
    pub open spec fn marked(self, target: NodeId) -> Tree<W>
        decreases self,
    {
        if self.id == target {
            self.marked_dirty()
        } else {
            let k = self.holder_from(target, 0);
            if 0 <= k < self.children.len() {
                Tree {
                    children: self.children.update(k, self.children[k].marked(target)),
                    ..self.invalidated()
                }
            } else {
                self
            }
        }
    }

    /// The tree after each node of `targets` was marked dirty, one after
    /// the other.
    pub open spec fn marked_all(self, targets: Seq<NodeId>) -> Tree<W>
        decreases targets.len(),
    {
        if targets.len() == 0 {
            self
        } else {
            self.marked_all(targets.drop_last()).marked(targets.last())
        }
    }

    /// How many of `targets` the tree holds, each counted as often as it
    /// occurs.
    pub open spec fn held_among(self, targets: Seq<NodeId>) -> nat
        decreases targets.len(),
    {
        if targets.len() == 0 {
            0
        } else {
            self.held_among(targets.drop_last()) + if self.holds(targets.last()) {
                1nat
            } else {
                0nat
            }
        }
    }

    /// Marking changes no identifier: the tree holds afterwards what it
    /// held before.
    pub proof fn lemma_marked_keeps_ids(self, target: NodeId, other: NodeId)
        ensures
            self.marked(target).holds(other) == self.holds(other),
        decreases self,
    {
        let after = self.marked(target);
        assert(after.id == self.id);
        assert(after.children.len() == self.children.len());
        let k = if self.id != target {
            self.holder_from(target, 0)
        } else {
            -1
        };
        if self.id != target {
            self.lemma_holder(target, 0);
        }
        assert forall|i: int| 0 <= i < self.children.len() implies (
        #[trigger] after.children[i]).holds(other) == self.children[i].holds(other) by {
            if i == k {
                self.children[i].lemma_marked_keeps_ids(target, other);
            }
        }
        if self.holds(other) && self.id != other {
            let i = choose|i: int|
                0 <= i < self.children.len() && (#[trigger] self.children[i]).holds(other);
            assert(after.children[i].holds(other));
        }
        if after.holds(other) && after.id != other {
            let i = choose|i: int|
                0 <= i < after.children.len() && (#[trigger] after.children[i]).holds(other);
            assert(self.children[i].holds(other));
        }
    }

    /// Marking any number of nodes changes no identifier.
    pub proof fn lemma_marked_all_keeps_ids(self, targets: Seq<NodeId>, other: NodeId)
        ensures
            self.marked_all(targets).holds(other) == self.holds(other),
        decreases targets.len(),
    {
        if targets.len() > 0 {
            self.lemma_marked_all_keeps_ids(targets.drop_last(), other);
            self.marked_all(targets.drop_last()).lemma_marked_keeps_ids(targets.last(), other);
        }
    }

    /// The holder that a search finds is a child that holds the target,
    /// and no child before it does.
    pub proof fn lemma_holder(self, target: NodeId, from: int)
        requires
            0 <= from <= self.children.len(),
        ensures
            from <= self.holder_from(target, from) <= self.children.len(),
            self.holder_from(target, from) < self.children.len() ==> self.children[self.holder_from(
                target,
                from,
            )].holds(target),
            forall|j: int|
                from <= j < self.holder_from(target, from) ==> !(#[trigger] self.children[j]).holds(
                    target,
                ),
        decreases self.children.len() - from,
    {
        if from < self.children.len() && !self.children[from].holds(target) {
            self.lemma_holder(target, from + 1);
        }
    }

    /// Marking a node that the tree does not hold changes nothing.
    pub proof fn lemma_marked_absent(self, target: NodeId)
        requires
            !self.holds(target),
        ensures
            self.marked(target) == self,
    {
        self.lemma_holder(target, 0);
    }
}


/// The measured sizes of `trees`, in their order.
pub open spec fn sizes_of<W>(trees: Seq<Tree<W>>) -> Seq<Vec2> {
    Seq::new(trees.len(), |i: int| trees[i].cached_size)
}

/// `trees` with each one put at the rectangle of its place in `rects`.
pub open spec fn put<W: Widget>(trees: Seq<Tree<W>>, rects: Seq<Rect>) -> Seq<Tree<W>> {
    Seq::new(trees.len(), |i: int| trees[i].with_rect(rects[i]))
}


/// The width that a node's own content is measured with: the width that
/// the node is given, less its padding.
pub open spec fn measure_width(style: Style, max_width: i32) -> i32 {
    saturate(max_width - style.spec_padding_total().x) as i32
}

/// The width that a node hands to its children: its fixed width where it
/// has one, the width that it is given otherwise, less its padding.
pub open spec fn child_max_width(style: Style, max_width: i32) -> i32 {
    saturate(
        match style.width {
            Some(w) => w,
            None => max_width,
        } - style.spec_padding_total().x,
    ) as i32
}

/// The region that a node's children are laid out in: as wide as the node
/// is given and as high as its rectangle, less its padding.
pub open spec fn available(style: Style, max_width: i32, rect: Rect) -> Vec2 {
    (Vec2 { x: max_width, y: rect.size.y }).spec_minus(style.spec_padding_total())
}

/// Where a node's content begins: at the corner of its rectangle, inside
/// the padding.
pub open spec fn content_origin(style: Style, rect: Rect) -> Vec2 {
    rect.origin.spec_plus(style.spec_padding_tl())
}

/// The size of a node whose content has the size `content`: padded, and
/// with the style's fixed width and height in place of the computed ones.
pub open spec fn outer_size(style: Style, content: Vec2) -> Vec2 {
    let padded = content.spec_plus(style.spec_padding_total());
    Vec2 {
        x: match style.width {
            Some(w) => w,
            None => padded.x,
        },
        y: match style.height {
            Some(h) => h,
            None => padded.y,
        },
    }
}

/// `trees` with the style of each replaced by the style at its place in
/// `styled`.
pub open spec fn restyled<W: Widget>(trees: Seq<Tree<W>>, styled: Seq<Tree<W>>) -> Seq<Tree<W>> {
    Seq::new(trees.len(), |i: int| Tree { style: styled[i].style, ..trees[i] })
}

/// `after` is what a node of style `style` makes of its children `before`
/// when it gives each its rectangle by the algorithm of its display mode.
/// A flex container asks each child's widget for its style first, for the
/// grow factor in it, and the child keeps what its widget gave; a grid and
/// a block read the measured sizes alone.
pub open spec fn arranged<W: Widget>(
    style: Style,
    before: Seq<Tree<W>>,
    after: Seq<Tree<W>>,
    avail: Vec2,
    origin: Vec2,
) -> bool {
    match style.display {
        Display::Flex => {
            &&& after == put(
                restyled(before, after),
                flexbox::child_rects(style.flex, flexbox::flex_items(after), avail, origin),
            )
            &&& forall|i: int|
                0 <= i < after.len() ==> call_ensures(
                    W::style,
                    (&before[i].widget,),
                    #[trigger] after[i].style,
                )
        },
        Display::Grid => after == put(
            before,
            grid::cell_rects(style.grid, sizes_of(before), avail, origin),
        ),
        Display::Block => after == put(before, block::block_rects(sizes_of(before), origin)),
    }
}

/// The size that the content of a node of style `style` has when its
/// children, arranged, are `after`.
pub open spec fn arranged_size<W: Widget>(style: Style, after: Seq<Tree<W>>, avail: Vec2) -> Vec2 {
    match style.display {
        Display::Flex => flexbox::container_size(style.flex, flexbox::flex_items(after), avail),
        Display::Grid => grid::container_size(style.grid, sizes_of(after), avail),
        Display::Block => block::container_size(sizes_of(after)),
    }
}

impl<W: Widget> Tree<W> {
    /// `after` is what a layout pass with `max_width` makes of `self`,
    /// with the widgets measured as `calls` tells.
    ///
    /// A tree whose root is neither `self_dirty` nor `child_dirty` is left
    /// as it is, and no widget of it is measured. Otherwise the root is
    /// painted again and its widget is asked for its style, which the
    /// root keeps; where the root is `self_dirty` its widget is measured
    /// once, for the width less the padding, and the result, padded, is
    /// its size; where it has children, each is laid out in turn, the
    /// algorithm of the root's display mode gives each its rectangle, and
    /// the size that the algorithm reports, padded, is the root's size;
    /// `self_dirty` and `child_dirty` are cleared.
    pub open spec fn laid_out(self, max_width: i32, after: Tree<W>, calls: Measures<W>) -> bool
        decreases self,
    {
        if !self.dirty.self_dirty && !self.dirty.child_dirty {
            after == self && calls.is_none()
        } else {
            let style = after.style;
            let avail = available(style, max_width, self.layout_rect);
            let origin = content_origin(style, self.layout_rect);
            &&& call_ensures(W::style, (&self.widget,), style)
            &&& after.id == self.id
            &&& after.widget == self.widget
            &&& after.layout_rect == self.layout_rect
            &&& after.hover_path == self.hover_path
            &&& after.history == self.history
            &&& after.dirty == (Dirty {
                self_dirty: false,
                child_dirty: false,
                paint_dirty: true,
            })
            &&& if self.dirty.self_dirty {
                calls.own.is_some() && self.measured_as(max_width, after, calls.own.unwrap())
            } else {
                calls.own.is_none()
            }
            &&& calls.below.len() == self.children.len()
            &&& if self.children.len() > 0 {
                exists|measured: Seq<Tree<W>>|
                    {
                        &&& measured.len() == self.children.len()
                        &&& forall|i: int|
                            0 <= i < self.children.len() ==> (#[trigger] self.children[i]).laid_out(
                                child_max_width(style, max_width),
                                measured[i],
                                calls.below[i],
                            )
                        &&& arranged(style, measured, after.children, avail, origin)
                        &&& after.cached_size == outer_size(
                            style,
                            arranged_size(style, after.children, avail),
                        )
                    }
            } else {
                &&& after.children == self.children
                &&& !self.dirty.self_dirty ==> after.cached_size == self.cached_size
            }
        }
    }

    /// `run` measured the widget of `self` for `max_width`, with the
    /// style that `after` keeps and with the node as the running
    /// subscriber, and where the node has no children the size found,
    /// padded, is the size of `after`.
    pub open spec fn measured_as(self, max_width: i32, after: Tree<W>, run: Measuring<W>) -> bool {
        &&& run.rt.stack().len() > 0
        &&& run.rt.stack().last() == Subscriber::Node(self.id)
        &&& call_ensures(
            W::measure,
            (&self.widget, measure_width(after.style, max_width), run.rt, run.env),
            run.size,
        )
        &&& self.children.len() == 0 ==> after.cached_size == outer_size(after.style, run.size)
    }

    /// `after` is what a paint pass makes of `self`: every node that was
    /// `paint_dirty` has been painted, which may have changed its widget,
    /// and no node is `paint_dirty` any more. Nothing else differs.
    pub open spec fn painted(self, after: Tree<W>) -> bool
        decreases self,
    {
        &&& after.id == self.id
        &&& after.layout_rect == self.layout_rect
        &&& after.cached_size == self.cached_size
        &&& after.style == self.style
        &&& after.hover_path == self.hover_path
        &&& after.history == self.history
        &&& after.dirty == (Dirty {
            self_dirty: self.dirty.self_dirty,
            child_dirty: self.dirty.child_dirty,
            paint_dirty: false,
        })
        &&& !self.dirty.paint_dirty ==> after.widget == self.widget
        &&& after.children.len() == self.children.len()
        &&& forall|i: int|
            0 <= i < self.children.len() ==> (#[trigger] self.children[i]).painted(
                after.children[i],
            )
    }

    /// No node of the tree is `paint_dirty`.
    pub open spec fn clean(self) -> bool
        decreases self,
    {
        &&& !self.dirty.paint_dirty
        &&& forall|i: int| 0 <= i < self.children.len() ==> (#[trigger] self.children[i]).clean()
    }

    /// A paint pass leaves no node `paint_dirty`.
    pub proof fn lemma_painted_clean(self, after: Tree<W>)
        requires
            self.painted(after),
        ensures
            after.clean(),
        decreases self,
    {
        assert forall|i: int| 0 <= i < after.children.len() implies (
        #[trigger] after.children[i]).clean() by {
            self.children[i].lemma_painted_clean(after.children[i]);
        }
    }

    /// A paint pass over a tree in which no node is `paint_dirty` paints
    /// nothing: it leaves the tree as it is.
    pub proof fn lemma_paint_idempotent(self, after: Tree<W>)
        requires
            self.clean(),
            self.painted(after),
        ensures
            after == self,
        decreases self,
    {
        assert forall|i: int| 0 <= i < self.children.len() implies #[trigger] after.children[i]
            == self.children[i] by {
            self.children[i].lemma_paint_idempotent(after.children[i]);
        }
        assert(after.children =~= self.children);
    }

    /// A layout pass leaves the root neither `self_dirty` nor
    /// `child_dirty`.
    pub proof fn lemma_layout_settles(self, max_width: i32, after: Tree<W>, calls: Measures<W>)
        requires
            self.laid_out(max_width, after, calls),
        ensures
            !after.dirty.self_dirty,
            !after.dirty.child_dirty,
    {
    }

    /// A second layout pass that follows a first one with nothing changed
    /// in between does no work: it measures no widget and leaves the tree
    /// as the first pass left it, size included, whatever width it is
    /// given.
    pub proof fn lemma_layout_idempotent(
        self,
        max_width: i32,
        first: Tree<W>,
        calls: Measures<W>,
        again_width: i32,
        second: Tree<W>,
        again: Measures<W>,
    )
        requires
            self.laid_out(max_width, first, calls),
            first.laid_out(again_width, second, again),
        ensures
            second == first,
            second.cached_size == first.cached_size,
            again.is_none(),
            forall|path: Seq<usize>| again.at(path).is_none(),
    {
        assert forall|path: Seq<usize>| again.at(path).is_none() by {
            crate::layout::measuring::lemma_none_at(again, path);
        }
    }
}

} // verus!
