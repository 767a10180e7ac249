use vstd::prelude::*;
use crate::layout::block::{lemma_stack_bounded, max_width, sum_height};
use crate::layout::flexbox::gap_count;
use crate::signals::Runtime;
use crate::units::{lemma_product_bounded, saturate, to_unit, Vec2};
use crate::widgets::base::Widget;

verus! {

/// Children one below the other, `spacing` apart.
pub struct Column<W> {
    pub children: Vec<W>,
    pub spacing: i32,
}

impl<W: Clone> Clone for Column<W> {
    fn clone(&self) -> (c: Self)
        ensures
            c.spacing == self.spacing,
            c.children@.len() == self.children@.len(),
            forall|i: int|
                0 <= i < self.children@.len() ==> cloned::<W>(
                    self.children@[i],
                    #[trigger] c.children@[i],
                ),
    {
        Column { children: self.children.clone(), spacing: self.spacing }
    }
}

/// The size of a stack of boxes of the sizes `sizes` with `spacing`
/// between each two: as wide as the widest, as high as all of them and the
/// spacing between them.
pub open spec fn stack_size(sizes: Seq<Vec2>, spacing: int) -> Vec2 {
    Vec2 {
        x: max_width(sizes, sizes.len() as int) as i32,
        y: saturate(
            sum_height(sizes, sizes.len() as int) + gap_count(sizes.len() as int) * spacing,
        ) as i32,
    }
}

/// `size` is a size that `child` gave when it was measured with
/// `max_width`.
pub open spec fn measured<W: Widget>(child: W, max_width: i32, size: Vec2) -> bool {
    exists|r: &mut Runtime<W::Value>, e: &mut W::Env| #[trigger]
        call_ensures(W::measure, (&child, max_width, r, e), size)
}

/// The size of a stack of boxes of the sizes `sizes`.
pub fn stacked(sizes: &Vec<Vec2>, spacing: i32) -> (size: Vec2)
    ensures
        size == stack_size(sizes@, spacing as int),
{
    let n = sizes.len();
    let mut w: i32 = 0;
    let mut h: i128 = 0;
    let mut i: usize = 0;
    while i < n
        invariant
            i <= n,
            n == sizes@.len(),
            w == max_width(sizes@, i as int),
            h == sum_height(sizes@, i as int) + gap_count(i as int) * spacing,
        decreases n - i,
    {
        proof {
            lemma_stack_bounded(sizes@, i as int);
            lemma_stack_bounded(sizes@, i + 1);
            lemma_product_bounded(gap_count(i as int), 0x1_0000_0000_0000_0000, spacing as int, 0x8000_0000);
            lemma_product_bounded(gap_count(i + 1), 0x1_0000_0000_0000_0000, spacing as int, 0x8000_0000);
            assert(gap_count(i + 1) * spacing == gap_count(i as int) * spacing + if i > 0 {
                spacing as int
            } else {
                0
            }) by (nonlinear_arith)
                requires
                    gap_count(i + 1) == gap_count(i as int) + if i > 0 {
                        1int
                    } else {
                        0
                    },
            ;
        }
        let size = sizes[i];
        if size.x > w {
            w = size.x;
        }
        h = h + size.y as i128;
        if i > 0 {
            h = h + spacing as i128;
        }
        i += 1;
    }
    Vec2 { x: w, y: to_unit(h) }
}

impl<W: Widget> Column<W> {
    /// A column without children, with a spacing of 4 units.
    pub fn new() -> (c: Self)
        ensures
            c.children@.len() == 0,
            c.spacing == 4,
    {
        Column { children: Vec::new(), spacing: 4 }
    }

    /// The size of the column: each child is measured with `max_width`,
    /// and the sizes that the children gave are stacked.
    pub fn measure(&self, max_width: i32, rt: &mut Runtime<W::Value>, env: &mut W::Env) -> (size:
        Vec2)
        ensures
            exists|sizes: Seq<Vec2>|
                {
                    &&& sizes.len() == self.children@.len()
                    &&& size == stack_size(sizes, self.spacing as int)
                    &&& forall|i: int|
                        0 <= i < sizes.len() ==> #[trigger] measured(
                            self.children@[i],
                            max_width,
                            sizes[i],
                        )
                },
    {
        let n = self.children.len();
        let mut sizes: Vec<Vec2> = Vec::new();
        let mut i: usize = 0;
        while i < n
            invariant
                i <= n,
                n == self.children@.len(),
                sizes@.len() == i,
                forall|j: int|
                    0 <= j < i ==> #[trigger] measured(self.children@[j], max_width, sizes@[j]),
            decreases n - i,
        {
            let ghost found = sizes@;
            let child = &self.children[i];
            let got = child.measure(max_width, rt, env);
            assert(measured(self.children@[i as int], max_width, got));
            sizes.push(got);
            assert forall|j: int| 0 <= j < i + 1 implies #[trigger] measured(
                self.children@[j],
                max_width,
                sizes@[j],
            ) by {
                if j < i {
                    assert(sizes@[j] == found[j]);
                    assert(measured(self.children@[j], max_width, found[j]));
                }
            }
            i += 1;
        }
        let size = stacked(&sizes, self.spacing);
        assert(size == stack_size(sizes@, self.spacing as int));
        size
    }
}

} // verus!
