//! The retained tree: one node per widget.

use vstd::prelude::*;
use crate::layout::block;
use crate::layout::dirty::Dirty;
use crate::layout::flexbox;
use crate::layout::grid;
use crate::layout::rect::Rect;
use crate::layout::tree::{
    arranged, arranged_size, available, child_max_width, content_origin, outer_size, put,
    sizes_of, Tree,
};
use crate::layout::measuring::{
    lemma_measures_keep_more, lemma_measures_keep_whole, lemma_no_measures, lemma_none_at,
    measures_keep_stack, Measures, Measuring,
};
use crate::signals::{lemma_scope_restores, NodeId, Runtime, ScopedNodeContext, Subscriber};
use crate::style::properties::{Display, Style};
use crate::units::{to_unit, Vec2};
use crate::widgets::base::Widget;
use crate::widgets::build_context::BuildCtx;
use crate::windowing::events::Delivered;

verus! {

/// The handle of a draw primitive, by its kind.
#[derive(Copy, Clone)]
pub enum PrimId {
    Rect(usize),
    Line(usize),
    Circ(usize),
    Text(usize),
}

/// The items of `items` in the opposite order.
fn back_to_front<T>(items: Vec<T>) -> (turned: Vec<T>)
    ensures
        turned@.len() == items@.len(),
        forall|k: int| 0 <= k < items@.len() ==> turned@[k] == items@[items@.len() - 1 - k],
{
    let mut rest = items;
    let mut turned: Vec<T> = Vec::new();
    while rest.len() > 0
        invariant
            rest@.len() + turned@.len() == items@.len(),
            forall|k: int| 0 <= k < rest@.len() ==> rest@[k] == items@[k],
            forall|k: int| 0 <= k < turned@.len() ==> turned@[k] == items@[items@.len() - 1 - k],
        decreases rest@.len(),
    {
        let item = rest.pop().unwrap();
        turned.push(item);
    }
    turned
}

/// A node of the tree. It owns its widget and the nodes of the widget's
/// children, and keeps what was computed for it.
pub struct Node<W: Widget> {
    pub id: NodeId,
    pub widget: W,
    /// The children, in the order in which they were built.
    pub children: Vec<Node<W>>,
    /// Where the node is: set by the layout of its parent.
    pub layout_rect: Rect,
    /// The size that the last layout found for the node.
    pub cached_size: Vec2,
    /// The style that the widget gave when the layout last asked for it.
    pub last_style: Style,
    pub dirty: Dirty,
    /// The path from this node to the node that the pointer is over. Only
    /// the root of a tree keeps one.
    pub hover_path: Vec<usize>,
    /// Every pass of an event that this node has delivered as the root of
    /// a tree, the oldest first.
    pub history: Ghost<Seq<Delivered>>,
}

impl<W: Widget> View for Node<W> {
    type V = Tree<W>;

    open spec fn view(&self) -> Tree<W> {
        self.tree()
    }
}

impl<W: Widget> Node<W> {
    /// What the node and the nodes below it hold.
    pub open spec fn tree(self) -> Tree<W>
        decreases self,
    {
        Tree {
            id: self.id,
            widget: self.widget,
            children: Self::trees(self.children@, self.children@.len() as int),
            layout_rect: self.layout_rect,
            cached_size: self.cached_size,
            style: self.last_style,
            dirty: self.dirty,
            hover_path: self.hover_path@,
            history: self.history@,
        }
    }

    /// What the first `n` of `nodes` hold.
    pub open spec fn trees(nodes: Seq<Node<W>>, n: int) -> Seq<Tree<W>>
        decreases nodes, n,
    {
        if n <= 0 || n > nodes.len() {
            Seq::empty()
        } else {
            Self::trees(nodes, n - 1).push(nodes[n - 1].tree())
        }
    }

    /// What all of `nodes` hold.
    pub open spec fn views(nodes: Seq<Node<W>>) -> Seq<Tree<W>> {
        Self::trees(nodes, nodes.len() as int)
    }

    /// The trees of nodes are the trees of each, in their order.
    pub proof fn lemma_trees(nodes: Seq<Node<W>>, n: int)
        requires
            0 <= n <= nodes.len(),
        ensures
            Self::trees(nodes, n).len() == n,
            forall|j: int| 0 <= j < n ==> #[trigger] Self::trees(nodes, n)[j] == nodes[j]@,
        decreases n,
    {
        if n > 0 {
            Self::lemma_trees(nodes, n - 1);
        }
    }

    /// The children of a node's tree are the trees of the node's children.
    pub proof fn lemma_view(self)
        ensures
            self@.children.len() == self.children@.len(),
            self@.children == Self::views(self.children@),
            forall|j: int|
                0 <= j < self.children@.len() ==> #[trigger] self@.children[j]
                    == self.children@[j]@,
    {
        Self::lemma_trees(self.children@, self.children@.len() as int);
    }

    /// The tree of a node is held in memory.
    pub proof fn lemma_countable(self)
        ensures
            self@.countable(),
        decreases self,
    {
        self.lemma_view();
        assert(self.children@.len() == self.children.len());
        assert forall|i: int| 0 <= i < self@.children.len() implies (
        #[trigger] self@.children[i]).countable() by {
            self.children@[i].lemma_countable();
        }
    }

    /// What nodes hold is known from what each holds.
    pub proof fn lemma_views(nodes: Seq<Node<W>>)
        ensures
            Self::views(nodes).len() == nodes.len(),
            forall|j: int| 0 <= j < nodes.len() ==> #[trigger] Self::views(nodes)[j] == nodes[j]@,
    {
        Self::lemma_trees(nodes, nodes.len() as int);
    }

    /// The tree of `widget`: its node and, below it, the trees of the
    /// widgets that it builds. The nodes get consecutive identifiers, each
    /// node before its children.
    pub fn new(widget: W, layout: Rect, ctx: &mut BuildCtx, rt: &mut Runtime<W::Value>) -> (node:
        Self)
        ensures
            node@.widget == widget,
            node@.built(usize::MAX as int),
            node@.is_fresh(layout),
            node@.numbered_from(old(rt).next_node_id() as int),
            final(rt).next_node_id() == (old(rt).next_node_id() + node@.count())
                % 0x1_0000_0000_0000_0000,
            final(rt).same_signals(*old(rt)),
            final(rt).stack() == old(rt).stack(),
            final(rt).dirty_queue() == old(rt).dirty_queue(),
            final(rt).next_effect_id() == old(rt).next_effect_id(),
    {
        Self::with_depth(widget, layout, ctx, rt, usize::MAX)
    }

    /// The tree of `widget`, `levels` levels deep at most: a widget on the
    /// last level is not asked to build its children and its node has
    /// none.
    pub fn with_depth(
        widget: W,
        layout: Rect,
        ctx: &mut BuildCtx,
        rt: &mut Runtime<W::Value>,
        levels: usize,
    ) -> (node: Self)
        ensures
            node@.widget == widget,
            node@.built(levels as int),
            node@.is_fresh(layout),
            node@.no_deeper_than(levels as int),
            node@.numbered_from(old(rt).next_node_id() as int),
            final(rt).next_node_id() == (old(rt).next_node_id() + node@.count())
                % 0x1_0000_0000_0000_0000,
            final(rt).same_signals(*old(rt)),
            final(rt).stack() == old(rt).stack(),
            final(rt).dirty_queue() == old(rt).dirty_queue(),
            final(rt).next_effect_id() == old(rt).next_effect_id(),
        decreases levels,
    {
        let ghost start = rt.next_node_id() as int;
        let id = NodeId::new(rt);
        let kids = if levels > 0 {
            widget.build(ctx)
        } else {
            Vec::new()
        };
        let ghost made = kids;
        // The widgets are taken from the end; the nodes are made in order.
        let mut built = back_to_front(kids);
        let n = built.len();
        let mut children: Vec<Node<W>> = Vec::new();
        let mut i: usize = 0;
        proof {
            reveal(Tree::grown);
        }
        while i < n
            invariant
                i <= n,
                n > 0 ==> levels > 0,
                n == made@.len(),
                levels > 0 ==> exists|c: &mut BuildCtx|
                    #[trigger] call_ensures(W::build, (&widget, c), made),
                built@.len() == n - i,
                forall|k: int| 0 <= k < n - i ==> built@[k] == made@[n - 1 - k],
                children@.len() == i,
                Tree::grown(Self::views(children@), layout, start + 1),
                forall|k: int|
                    0 <= k < i ==> (#[trigger] children@[k])@.no_deeper_than(levels - 1),
                forall|k: int|
                    0 <= k < i ==> {
                        &&& (#[trigger] children@[k])@.widget == made@[k]
                        &&& children@[k]@.built(levels - 1)
                    },
                rt.next_node_id() == (start + 1 + Tree::count_first(
                    Self::views(children@),
                    i as int,
                )) % 0x1_0000_0000_0000_0000,
                rt.same_signals(*old(rt)),
                rt.stack() == old(rt).stack(),
                rt.dirty_queue() == old(rt).dirty_queue(),
                rt.next_effect_id() == old(rt).next_effect_id(),
            decreases n - i,
        {
            let ghost before = children@;
            let ghost next = rt.next_node_id() as int;
            let w = built.pop().unwrap();
            let child = Node::with_depth(w, layout, ctx, rt, levels - 1);
            children.push(child);
            proof {
                Self::lemma_views(before);
                Self::lemma_views(children@);
                assert(Self::views(children@) =~= Self::views(before).push(child@));
                Tree::lemma_grown_push(Self::views(before), child@, layout, start + 1, next);
            }
            i += 1;
        }
        let node = Node {
            id,
            widget,
            children,
            layout_rect: layout,
            cached_size: Vec2::zero(),
            last_style: Style::default(),
            dirty: Dirty::all(),
            hover_path: Vec::new(),
            history: Ghost(Seq::empty()),
        };
        proof {
            reveal(Tree::grown);
            node.lemma_view();
            if levels > 0 {
                let c = choose|c: &mut BuildCtx|
                    #[trigger] call_ensures(W::build, (&node.widget, c), made);
                assert(call_ensures(W::build, (&node@.widget, c), made));
                assert(node@.children.len() == made@.len());
                assert forall|k: int| 0 <= k < node@.children.len() implies {
                    &&& (#[trigger] node@.children[k]).widget == made@[k]
                    &&& node@.children[k].built(levels - 1)
                } by {
                    assert(node@.children[k] == node.children@[k]@);
                }
                assert(node@.built(levels as int));
            } else {
                assert(node@.children.len() == 0);
            }
        }
        node
    }

    fn invalidate(&mut self)
        ensures
            final(self)@ == old(self)@.invalidated(),
    {
        if !self.dirty.paint_dirty {
            self.dirty.paint_dirty = true;
        }
    }

    /// What the widget's `style` gives for the node's widget as it is.
    pub fn style(&self) -> (s: Style)
        ensures
            call_ensures(W::style, (&self@.widget,), s),
    {
        self.widget.style()
    }

    /// Puts the node at `r`. Where that is where it lies already, nothing
    /// changes: an unchanged rectangle makes nothing stale.
    pub fn set_rect(&mut self, r: Rect)
        ensures
            final(self)@ == old(self)@.with_rect(r),
    {
        if self.layout_rect == r {
            return ;
        }
        self.layout_rect = r;
        self.invalidate();
        self.mark_child_dirty();
    }

    /// The corner of the node's rectangle.
    pub fn origin(&self) -> (o: Vec2)
        ensures
            o == self@.layout_rect.origin,
    {
        self.layout_rect.origin
    }

    /// The size that the last layout found for the node.
    pub fn cached(&self) -> (size: Vec2)
        ensures
            size == self@.cached_size,
    {
        self.cached_size
    }

    /// Has the node lay its children out again at the next layout.
    pub fn mark_child_dirty(&mut self)
        ensures
            final(self)@ == old(self)@.child_dirtied(),
    {
        self.dirty.child_dirty = true;
    }

    /// Has the node measured and painted again.
    pub fn mark_dirty(&mut self)
        ensures
            final(self)@ == old(self)@.marked_dirty(),
    {
        self.dirty.self_dirty = true;
        self.dirty.paint_dirty = true;
    }

    /// Marks the node with the identifier `target_id` dirty, the first one
    /// that a walk from the root meets, each node before its children.
    /// Every node above it is set to be painted again, so that the paint
    /// pass reaches it. Tells whether there is such a node.
    pub fn mark_dirty_by_id(&mut self, target_id: NodeId) -> (found: bool)
        ensures
            found == old(self)@.holds(target_id),
            final(self)@ == old(self)@.marked(target_id),
        decreases *old(self),
    {
        if self.id == target_id {
            self.mark_dirty();
            return true;
        }
        proof {
            self.lemma_view();
        }
        let ghost before = self@;
        let n = self.children.len();
        let mut i: usize = 0;
        while i < n
            invariant
                i <= n,
                n == self.children@.len(),
                n == old(self).children@.len(),
                before == old(self)@,
                before.children.len() == n,
                self.id == old(self).id,
                self.id != target_id,
                self.widget == old(self).widget,
                self.layout_rect == old(self).layout_rect,
                self.cached_size == old(self).cached_size,
                self.last_style == old(self).last_style,
                self.dirty == old(self).dirty,
                self.hover_path == old(self).hover_path,
                self.history == old(self).history,
                forall|j: int| 0 <= j < n ==> (#[trigger] self.children@[j])@ == before.children[j],
                forall|j: int| i <= j < n ==> self.children@[j] == old(self).children@[j],
                forall|j: int| 0 <= j < i ==> !(#[trigger] before.children[j]).holds(target_id),
            decreases n - i,
        {
            assert(decreases_to!(old(self).children => old(self).children[i as int]));
            let child = &mut self.children[i];
            if child.mark_dirty_by_id(target_id) {
                self.dirty.paint_dirty = true;
                proof {
                    self.lemma_view();
                    before.lemma_holder(target_id, 0);
                    let k = before.holder_from(target_id, 0);
                    assert(k == i) by {
                        if k > i {
                            assert(!before.children[i as int].holds(target_id));
                        }
                    }
                    assert(self@.children =~= before.children.update(
                        i as int,
                        before.children[i as int].marked(target_id),
                    ));
                }
                return true;
            }
            proof {
                before.children[i as int].lemma_marked_absent(target_id);
            }
            i += 1;
        }
        proof {
            self.lemma_view();
            before.lemma_holder(target_id, 0);
            assert(self@.children =~= before.children);
            assert(!before.holds(target_id));
        }
        false
    }
}


/// The measured sizes of `children`, in their order.
pub fn cached_sizes<W: Widget>(children: &Vec<Node<W>>) -> (sizes: Vec<Vec2>)
    ensures
        sizes@ == sizes_of(Node::views(children@)),
        sizes@.len() == children@.len(),
{
    let n = children.len();
    let mut sizes: Vec<Vec2> = Vec::new();
    let mut i: usize = 0;
    proof {
        Node::lemma_views(children@);
    }
    while i < n
        invariant
            i <= n,
            n == children@.len(),
            sizes@.len() == i,
            forall|k: int| 0 <= k < i ==> #[trigger] sizes@[k] == children@[k]@.cached_size,
        decreases n - i,
    {
        sizes.push(children[i].cached());
        i += 1;
    }
    assert(sizes@ =~= sizes_of(Node::views(children@)));
    sizes
}

/// Puts each of `children` at the rectangle of its place in `rects`.
pub fn set_rects<W: Widget>(children: &mut Vec<Node<W>>, rects: &Vec<Rect>)
    requires
        rects@.len() == old(children)@.len(),
    ensures
        Node::views(final(children)@) == put(Node::views(old(children)@), rects@),
{
    let n = children.len();
    let mut i: usize = 0;
    while i < n
        invariant
            i <= n,
            n == children@.len(),
            n == old(children)@.len(),
            n == rects@.len(),
            forall|k: int|
                0 <= k < i ==> (#[trigger] children@[k])@ == old(children)@[k]@.with_rect(rects@[k]),
            forall|k: int| i <= k < n ==> children@[k] == old(children)@[k],
        decreases n - i,
    {
        let child = &mut children[i];
        child.set_rect(rects[i]);
        i += 1;
    }
    proof {
        Node::lemma_views(children@);
        Node::lemma_views(old(children)@);
        assert(Node::views(children@) =~= put(Node::views(old(children)@), rects@));
    }
}


/// Gives each of `children` its rectangle by the algorithm of the display
/// mode of `style`, and returns the size that the algorithm reports for
/// the content.
pub fn arrange<W: Widget>(
    style: Style,
    children: &mut Vec<Node<W>>,
    avail: Vec2,
    origin: Vec2,
) -> (size: Vec2)
    ensures
        arranged(
            style,
            Node::views(old(children)@),
            Node::views(final(children)@),
            avail,
            origin,
        ),
        size == arranged_size(style, Node::views(final(children)@), avail),
{
    let ghost before = Node::views(children@);
    let size = match style.display {
        Display::Flex => flexbox::compute(style.flex, children, avail, origin),
        Display::Grid => grid::compute(style.grid, children, avail, origin),
        Display::Block => block::compute(children, origin),
    };
    proof {
        Node::lemma_views(children@);
        Node::lemma_views(old(children)@);
        assert(sizes_of(Node::views(children@)) =~= sizes_of(before));
        if style.display == Display::Flex {
            let after = Node::views(children@);
            assert forall|i: int| 0 <= i < after.len() implies call_ensures(
                W::style,
                (&before[i].widget,),
                #[trigger] after[i].style,
            ) by {
                assert(after[i] == children@[i]@);
                assert(before[i] == old(children)@[i]@);
            }
        }
    }
    size
}

/// The size of a node whose content has the size `content`.
pub fn padded(style: Style, content: Vec2) -> (size: Vec2)
    ensures
        size == outer_size(style, content),
{
    let padded = content.plus(style.padding_total());
    Vec2 {
        x: match style.width {
            Some(w) => w,
            None => padded.x,
        },
        y: match style.height {
            Some(h) => h,
            None => padded.y,
        },
    }
}

impl<W: Widget> Node<W> {
    /// Lays the tree out for the width `max_width` and returns the size of
    /// its root. A tree whose root is neither `self_dirty` nor
    /// `child_dirty` is left as it is, with the runtime and the
    /// surroundings, and the size found before is returned. Each node is
    /// the running subscriber while its widget is measured. Where every
    /// measurement leaves the stack of running subscribers as it found
    /// it, the stack is afterwards what it was.
    pub fn layout<'r>(
        &mut self,
        max_width: i32,
        rt: &mut Runtime<W::Value>,
        env: &mut W::Env,
    ) -> (size: Vec2)
        ensures
            exists|calls: Measures<'r, W>|
                {
                    &&& #[trigger] old(self)@.laid_out(max_width, final(self)@, calls)
                    &&& forall|path: Seq<usize>|
                        (#[trigger] calls.at(path)).is_some() ==> *final(calls.at(path).unwrap().rt)
                            == calls.at(path).unwrap().left
                    &&& calls.keeps_stack() ==> final(rt).stack() == old(rt).stack()
                },
            size == final(self)@.cached_size,
            !old(self)@.dirty.self_dirty && !old(self)@.dirty.child_dirty ==> {
                &&& *final(rt) == *old(rt)
                &&& *final(env) == *old(env)
            },
        decreases *old(self),
    {
        let ghost before = self@;
        let ghost stack0 = rt.stack();
        proof {
            self.lemma_view();
            lemma_no_measures::<W>();
        }
        if !self.dirty.self_dirty && !self.dirty.child_dirty {
            proof {
                let none = choose|none: Seq<Measures<'r, W>>| #[trigger] none.len() == 0;
                let calls = Measures { own: None, below: none };
                assert(before.laid_out(max_width, self@, calls));
                assert forall|path: Seq<usize>| (#[trigger] calls.at(path)).is_some() implies
                    *final(calls.at(path).unwrap().rt) == calls.at(path).unwrap().left by {
                    lemma_none_at(calls, path);
                }
            }
            return self.cached_size;
        }
        self.dirty.paint_dirty = true;
        let style = self.widget.style();
        self.last_style = style;
        let padding = style.padding_total();
        let ghost id = self.id;
        let ghost was_dirty = self.dirty.self_dirty;
        let ghost mut found = Vec2::spec_zero();
        let ghost mut begun = *rt;
        let ghost mut left = *rt;
        let width = to_unit(max_width as i128 - padding.x as i128);
        if self.dirty.self_dirty {
            let scope = ScopedNodeContext::new(rt, self.id);
            proof {
                begun = *rt;
            }
            let measured = self.widget.measure(width, rt, env);
            proof {
                left = *rt;
                found = measured;
            }
            scope.exit(rt);
            self.cached_size = padded(style, measured);
            proof {
                lemma_scope_restores(stack0, Subscriber::Node(id));
            }
        }
        let ghost own_kept = !was_dirty || left.stack() == begun.stack();
        let n = self.children.len();
        let inner_width = to_unit(
            match style.width {
                Some(w) => w as i128,
                None => max_width as i128,
            } - padding.x as i128,
        );
        let mut i: usize = 0;
        while i < n
            invariant
                i <= n,
                n == self.children@.len(),
                n == old(self).children@.len(),
                before == old(self)@,
                before.children.len() == n,
                self.id == old(self).id,
                self.widget == old(self).widget,
                self.layout_rect == old(self).layout_rect,
                self.hover_path == old(self).hover_path,
                self.history == old(self).history,
                self.last_style == style,
                self.dirty.paint_dirty,
                self.dirty.self_dirty == old(self).dirty.self_dirty,
                self.dirty.child_dirty == old(self).dirty.child_dirty,
                was_dirty ==> self.cached_size == outer_size(style, found),
                !was_dirty ==> self.cached_size == old(self).cached_size,
                own_kept == (!was_dirty || left.stack() == begun.stack()),
                exists|below: Seq<Measures<'r, W>>|
                    {
                        &&& #[trigger] below.len() == i
                        &&& forall|j: int|
                            0 <= j < i ==> (#[trigger] before.children[j]).laid_out(
                                inner_width,
                                self.children@[j]@,
                                below[j],
                            )
                        &&& forall|j: int, path: Seq<usize>|
                            0 <= j < i && (#[trigger] below[j].at(path)).is_some()
                                ==> *final(below[j].at(path).unwrap().rt)
                                    == below[j].at(path).unwrap().left
                        &&& (own_kept && measures_keep_stack(below, i as int)) ==> rt.stack() == stack0
                    },
                forall|j: int| i <= j < n ==> self.children@[j] == old(self).children@[j],
                forall|j: int|
                    0 <= j < n ==> #[trigger] before.children[j] == old(self).children@[j]@,
            decreases n - i,
        {
            assert(decreases_to!(old(self).children => old(self).children[i as int]));
            let ghost kids = self.children@;
            let ghost stack_then = rt.stack();
            let child = &mut self.children[i];
            let ghost under = child@;
            let _ = child.layout(inner_width, rt, env);
            let ghost under_now = child@;
            proof {
                let below = choose|below: Seq<Measures<'r, W>>|
                    {
                        &&& #[trigger] below.len() == i
                        &&& forall|j: int|
                            0 <= j < i ==> (#[trigger] before.children[j]).laid_out(
                                inner_width,
                                kids[j]@,
                                below[j],
                            )
                        &&& forall|j: int, path: Seq<usize>|
                            0 <= j < i && (#[trigger] below[j].at(path)).is_some()
                                ==> *final(below[j].at(path).unwrap().rt)
                                    == below[j].at(path).unwrap().left
                        &&& (own_kept && measures_keep_stack(below, i as int)) ==> stack_then == stack0
                    };
                let made = choose|calls: Measures<'r, W>|
                    {
                        &&& #[trigger] under.laid_out(inner_width, under_now, calls)
                        &&& forall|path: Seq<usize>|
                            (#[trigger] calls.at(path)).is_some()
                                ==> *final(calls.at(path).unwrap().rt)
                                == calls.at(path).unwrap().left
                        &&& calls.keeps_stack() ==> rt.stack() == stack_then
                    };
                let more = below.push(made);
                assert(more.len() == i + 1);
                assert forall|j: int| 0 <= j < i + 1 implies (#[trigger] before.children[j]).laid_out(
                    inner_width,
                    self.children@[j]@,
                    more[j],
                ) by {
                    if j < i {
                        assert(self.children@[j] == kids[j]);
                        assert(more[j] == below[j]);
                    }
                }
                assert forall|j: int, path: Seq<usize>|
                    0 <= j < i + 1 && (#[trigger] more[j].at(path)).is_some() implies
                        *final(more[j].at(path).unwrap().rt) == more[j].at(path).unwrap().left by {
                    if j < i {
                        assert(more[j] == below[j]);
                    }
                }
                lemma_measures_keep_more(below, made);
            }
            i += 1;
        }
        let ghost kept = self.children@;
        let ghost stack_laid = rt.stack();
        let ghost measured = Self::views(self.children@);
        if n > 0 {
            proof {
                Self::lemma_views(self.children@);
            }
            let avail = Vec2::new(max_width, self.layout_rect.size.y).minus(padding);
            let origin = self.layout_rect.origin.plus(style.padding_tl());
            let content = arrange(style, &mut self.children, avail, origin);
            self.cached_size = padded(style, content);
            proof {
                self.lemma_view();
                let after = self@;
                assert(avail == available(style, max_width, before.layout_rect));
                assert(origin == content_origin(style, before.layout_rect));
                assert(arranged(style, measured, after.children, avail, origin));
                assert(after.cached_size == outer_size(
                    style,
                    arranged_size(style, after.children, avail),
                ));
            }
        }
        self.dirty.self_dirty = false;
        self.dirty.child_dirty = false;
        proof {
            self.lemma_view();
            let after = self@;
            let below = choose|below: Seq<Measures<'r, W>>|
                {
                    &&& #[trigger] below.len() == n
                    &&& forall|j: int|
                        0 <= j < n ==> (#[trigger] before.children[j]).laid_out(
                            inner_width,
                            kept[j]@,
                            below[j],
                        )
                    &&& forall|j: int, path: Seq<usize>|
                        0 <= j < n && (#[trigger] below[j].at(path)).is_some()
                            ==> *final(below[j].at(path).unwrap().rt)
                                == below[j].at(path).unwrap().left
                    &&& (own_kept && measures_keep_stack(below, n as int)) ==> stack_laid == stack0
                };
            let own = if was_dirty {
                let (r, e) = choose|r: &mut Runtime<W::Value>, e: &mut W::Env|
                    {
                        &&& *r == begun
                        &&& *final(r) == left
                        &&& r.stack().len() > 0
                        &&& r.stack().last() == Subscriber::Node(id)
                        &&& #[trigger] call_ensures(W::measure, (&before.widget, width, r, e), found)
                    };
                Some(Measuring { rt: r, env: e, size: found, left })
            } else {
                None
            };
            let calls = Measures { own, below };
            if n == 0 {
                assert(after.children =~= before.children);
            } else {
                assert forall|j: int| 0 <= j < n implies (#[trigger] before.children[j]).laid_out(
                    child_max_width(style, max_width),
                    measured[j],
                    calls.below[j],
                ) by {}
            }
            assert(before.laid_out(max_width, after, calls));
            assert forall|path: Seq<usize>| (#[trigger] calls.at(path)).is_some() implies
                *final(calls.at(path).unwrap().rt) == calls.at(path).unwrap().left by {
                if path.len() > 0 {
                    assert(calls.at(path) == below[path[0] as int].at(path.skip(1)));
                }
            }
            lemma_measures_keep_whole(calls);
        }
        self.cached_size
    }
}

} // verus!
