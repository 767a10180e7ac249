//! Paths into the tree: where a point hits, where a path leads, and what a
//! delivery along a path can change.

use vstd::prelude::*;
use crate::layout::tree::Tree;
use crate::units::Vec2;
use crate::widgets::base::Widget;

verus! {

impl<W: Widget> Tree<W> {
    /// The path from the root to the node that the point `pt` hits: the
    /// deepest node whose rectangle holds the point, where only nodes
    /// inside nodes that hold it are looked at and an earlier child goes
    /// before a later one. `None` where the root does not hold the point.
    pub open spec fn hit(self, pt: Vec2) -> Option<Seq<usize>>
        decreases self, 1int, 0int,
    {
        if !self.layout_rect.spec_contains(pt) {
            None
        } else {
            let k = self.hit_from(pt, 0);
            if 0 <= k < self.children.len() {
                Some(seq![k as usize] + self.children[k].hit(pt).unwrap())
            } else {
                Some(Seq::empty())
            }
        }
    }

    /// The first child at or after `from` that the point `pt` hits; the
    /// number of children where there is none.
    pub open spec fn hit_from(self, pt: Vec2, from: int) -> int
        decreases self, 0int, self.children.len() - from,
    {
        if from < 0 || from >= self.children.len() {
            self.children.len() as int
        } else if self.children[from].hit(pt).is_some() {
            from
        } else {
            self.hit_from(pt, from + 1)
        }
    }

    /// No node has more children than can be counted in a `usize`: true
    /// of every tree that is held in memory.
    pub open spec fn countable(self) -> bool
        decreases self,
    {
        &&& self.children.len() <= usize::MAX
        &&& forall|i: int|
            0 <= i < self.children.len() ==> (#[trigger] self.children[i]).countable()
    }

    /// From its index `depth` on, `path` names a child at every step.
    pub open spec fn valid_from(self, path: Seq<usize>, depth: int) -> bool
        decreases path.len() - depth,
    {
        if depth < 0 || depth >= path.len() {
            true
        } else {
            &&& path[depth] < self.children.len()
            &&& self.children[path[depth] as int].valid_from(path, depth + 1)
        }
    }

    /// `path` leads from the root to a node.
    pub open spec fn valid_path(self, path: Seq<usize>) -> bool {
        self.valid_from(path, 0)
    }

    /// The node that `path` leads to from its index `depth` on.
    pub open spec fn node_from(self, path: Seq<usize>, depth: int) -> Tree<W>
        decreases path.len() - depth,
    {
        if depth < 0 || depth >= path.len() || path[depth] >= self.children.len() {
            self
        } else {
            self.children[path[depth] as int].node_from(path, depth + 1)
        }
    }

    /// The node that `path` leads to.
    pub open spec fn node_at(self, path: Seq<usize>) -> Tree<W> {
        self.node_from(path, 0)
    }

    /// What a delivery along `path`, from its index `depth` on, can make
    /// of `self`: the nodes on the path may have another widget and more
    /// dirty flags set; every other node is as it was, and no node has
    /// moved, changed its size or its identity, or lost a dirty flag.
    pub open spec fn routed(self, after: Tree<W>, path: Seq<usize>, depth: int) -> bool
        decreases path.len() - depth,
    {
        &&& after.id == self.id
        &&& after.layout_rect == self.layout_rect
        &&& after.cached_size == self.cached_size
        &&& after.style == self.style
        &&& after.hover_path == self.hover_path
        &&& after.history == self.history
        &&& self.dirty.within(after.dirty)
        &&& after.children.len() == self.children.len()
        &&& if 0 <= depth < path.len() && path[depth] < self.children.len() {
            &&& forall|j: int|
                0 <= j < self.children.len() && j != path[depth] ==> #[trigger] after.children[j]
                    == self.children[j]
            &&& self.children[path[depth] as int].routed(
                after.children[path[depth] as int],
                path,
                depth + 1,
            )
        } else {
            after.children == self.children
        }
    }

    /// What any number of deliveries can make of `self`: no node has
    /// moved, changed its size or its identity, or lost a dirty flag, and
    /// every node has the children that it had.
    pub open spec fn unmoved(self, after: Tree<W>) -> bool
        decreases self,
    {
        &&& after.id == self.id
        &&& after.layout_rect == self.layout_rect
        &&& after.cached_size == self.cached_size
        &&& after.style == self.style
        &&& self.dirty.within(after.dirty)
        &&& after.children.len() == self.children.len()
        &&& forall|j: int|
            0 <= j < self.children.len() ==> (#[trigger] self.children[j]).unmoved(
                after.children[j],
            )
    }

    /// The first child hit is a child that is hit, and no child before it
    /// is.
    pub proof fn lemma_hit_from(self, pt: Vec2, from: int)
        requires
            0 <= from <= self.children.len(),
        ensures
            from <= self.hit_from(pt, from) <= self.children.len(),
            self.hit_from(pt, from) < self.children.len() ==> self.children[self.hit_from(
                pt,
                from,
            )].hit(pt).is_some(),
            forall|j: int|
                from <= j < self.hit_from(pt, from) ==> (#[trigger] self.children[j]).hit(
                    pt,
                ).is_none(),
        decreases self.children.len() - from,
    {
        if from < self.children.len() && self.children[from].hit(pt).is_none() {
            self.lemma_hit_from(pt, from + 1);
        }
    }

    /// A path prefixed by one step is valid from the second index on as
    /// the shorter path is from the first.
    pub proof fn lemma_valid_shift(self, first: usize, rest: Seq<usize>, depth: int)
        requires
            0 <= depth <= rest.len(),
        ensures
            self.valid_from(seq![first] + rest, depth + 1) == self.valid_from(rest, depth),
            self.node_from(seq![first] + rest, depth + 1) == self.node_from(rest, depth),
        decreases rest.len() - depth,
    {
        let path = seq![first] + rest;
        assert(path.len() == rest.len() + 1);
        if depth < rest.len() {
            assert(path[depth + 1] == rest[depth]);
            if rest[depth] < self.children.len() {
                self.children[rest[depth] as int].lemma_valid_shift(first, rest, depth + 1);
            }
        }
    }

    /// The path to the node that a point hits leads to a node, and that
    /// node's rectangle holds the point.
    pub proof fn lemma_hit_valid(self, pt: Vec2)
        requires
            self.countable(),
            self.hit(pt).is_some(),
        ensures
            self.valid_path(self.hit(pt).unwrap()),
            self.node_at(self.hit(pt).unwrap()).layout_rect.spec_contains(pt),
        decreases self,
    {
        self.lemma_hit_from(pt, 0);
        let k = self.hit_from(pt, 0);
        if k < self.children.len() {
            let child = self.children[k];
            let rest = child.hit(pt).unwrap();
            child.lemma_hit_valid(pt);
            child.lemma_valid_shift(k as usize, rest, 0);
            let path = seq![k as usize] + rest;
            assert(path[0] == k as usize);
        }
    }

    /// Where a path leads below the root goes by the children alone.
    pub proof fn lemma_node_from_children(self, other: Tree<W>, path: Seq<usize>, depth: int)
        requires
            self.children == other.children,
        ensures
            0 <= depth < path.len() && path[depth] < self.children.len() ==> self.node_from(
                path,
                depth,
            ) == other.node_from(path, depth),
    {
    }

    /// A delivery changes nothing of where paths lead.
    pub proof fn lemma_routed_keeps_paths(
        self,
        after: Tree<W>,
        path: Seq<usize>,
        depth: int,
        other: Seq<usize>,
        at: int,
    )
        requires
            self.routed(after, path, depth),
        ensures
            self.valid_from(other, at) == after.valid_from(other, at),
        decreases other.len() - at,
    {
        if 0 <= at < other.len() && other[at] < self.children.len() {
            let j = other[at] as int;
            if 0 <= depth < path.len() && path[depth] < self.children.len() {
                if j == path[depth] {
                    self.children[j].lemma_routed_keeps_paths(
                        after.children[j],
                        path,
                        depth + 1,
                        other,
                        at + 1,
                    );
                } else {
                    assert(after.children[j] == self.children[j]);
                }
            } else {
                assert(after.children[j] == self.children[j]);
            }
        }
    }

    /// Two deliveries along one path are a delivery along it.
    pub proof fn lemma_routed_twice(
        self,
        between: Tree<W>,
        after: Tree<W>,
        path: Seq<usize>,
        depth: int,
    )
        requires
            self.routed(between, path, depth),
            between.routed(after, path, depth),
        ensures
            self.routed(after, path, depth),
        decreases path.len() - depth,
    {
        if 0 <= depth < path.len() && path[depth] < self.children.len() {
            let k = path[depth] as int;
            self.children[k].lemma_routed_twice(
                between.children[k],
                after.children[k],
                path,
                depth + 1,
            );
            assert forall|j: int| 0 <= j < self.children.len() && j != k implies #[trigger]
                after.children[j] == self.children[j] by {
                assert(between.children[j] == self.children[j]);
            }
        }
    }

    /// Nothing is a delivery that changed nothing.
    pub proof fn lemma_routed_same(self, path: Seq<usize>, depth: int)
        ensures
            self.routed(self, path, depth),
        decreases path.len() - depth,
    {
        if 0 <= depth < path.len() && path[depth] < self.children.len() {
            self.children[path[depth] as int].lemma_routed_same(path, depth + 1);
        }
    }

    /// A tree is unmoved from itself.
    pub proof fn lemma_unmoved_same(self)
        ensures
            self.unmoved(self),
        decreases self,
    {
        assert forall|j: int| 0 <= j < self.children.len() implies (
        #[trigger] self.children[j]).unmoved(self.children[j]) by {
            self.children[j].lemma_unmoved_same();
        }
    }

    /// A delivery leaves the tree unmoved.
    pub proof fn lemma_routed_unmoved(self, after: Tree<W>, path: Seq<usize>, depth: int)
        requires
            self.routed(after, path, depth),
        ensures
            self.unmoved(after),
        decreases self,
    {
        assert forall|j: int| 0 <= j < self.children.len() implies (
        #[trigger] self.children[j]).unmoved(after.children[j]) by {
            if 0 <= depth < path.len() && path[depth] < self.children.len() && j == path[depth] {
                self.children[j].lemma_routed_unmoved(after.children[j], path, depth + 1);
            } else {
                assert(after.children[j] == self.children[j]);
                self.children[j].lemma_unmoved_same();
            }
        }
    }

    /// Unmoved through one step and through the next is unmoved through
    /// both.
    pub proof fn lemma_unmoved_twice(self, between: Tree<W>, after: Tree<W>)
        requires
            self.unmoved(between),
            between.unmoved(after),
        ensures
            self.unmoved(after),
        decreases self,
    {
        assert forall|j: int| 0 <= j < self.children.len() implies (
        #[trigger] self.children[j]).unmoved(after.children[j]) by {
            assert(between.children[j].unmoved(after.children[j]));
            self.children[j].lemma_unmoved_twice(between.children[j], after.children[j]);
        }
    }

    /// An unmoved tree has the paths that it had, and a point hits in it
    /// what it hit.
    pub proof fn lemma_unmoved_keeps_paths(self, after: Tree<W>, other: Seq<usize>, at: int)
        requires
            self.unmoved(after),
        ensures
            self.valid_from(other, at) == after.valid_from(other, at),
        decreases other.len() - at,
    {
        if 0 <= at < other.len() && other[at] < self.children.len() {
            let j = other[at] as int;
            assert(self.children[j].unmoved(after.children[j]));
            self.children[j].lemma_unmoved_keeps_paths(after.children[j], other, at + 1);
        }
    }
}

} // verus!
