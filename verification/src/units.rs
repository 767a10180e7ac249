//! Layout units.
//!
//! Every coordinate and extent in this crate is a whole number of layout
//! units held in an `i32`. Arithmetic on them is carried out exactly, in a
//! wider type, and a result that leaves the `i32` range is pinned to the
//! nearest end of it. `saturate` is that pinning; every contract that stores
//! a computed coordinate states the exact mathematical value inside it.

use vstd::prelude::*;
use vstd::arithmetic::div_mod::{lemma_div_pos_is_pos, lemma_fundamental_div_mod, lemma_mod_pos_bound};

verus! {

/// The value of `v` pinned to the range of a layout unit.
pub open spec fn saturate(v: int) -> int {
    if v < i32::MIN as int {
        i32::MIN as int
    } else if v > i32::MAX as int {
        i32::MAX as int
    } else {
        v
    }
}

/// Half of `v`, rounded toward zero, so that `half(-v) == -half(v)`.
pub open spec fn half(v: int) -> int {
    if v >= 0 {
        v / 2
    } else {
        -((-v) / 2)
    }
}

/// `a` divided by a positive `b`, rounded toward zero.
pub open spec fn quotient(a: int, b: int) -> int {
    if a >= 0 {
        a / b
    } else {
        -((-a) / b)
    }
}

/// The larger of two integers.
pub open spec fn max_int(a: int, b: int) -> int {
    if a >= b {
        a
    } else {
        b
    }
}

/// The smaller of two integers.
pub open spec fn min_int(a: int, b: int) -> int {
    if a <= b {
        a
    } else {
        b
    }
}

/// Pins an exact intermediate value to the range of a layout unit.
pub fn to_unit(v: i128) -> (r: i32)
    ensures
        r as int == saturate(v as int),
{
    if v < i32::MIN as i128 {
        i32::MIN
    } else if v > i32::MAX as i128 {
        i32::MAX
    } else {
        v as i32
    }
}

/// A pair of layout units: a position, an extent or an offset.
#[derive(Copy, Clone, Debug, PartialEq, Eq, Structural)]
pub struct Vec2 {
    pub x: i32,
    pub y: i32,
}

impl Vec2 {
    /// The pair `(0, 0)`.
    pub open spec fn spec_zero() -> Vec2 {
        Vec2 { x: 0, y: 0 }
    }

    /// Component-wise sum, each component pinned to the unit range.
    pub open spec fn spec_plus(self, other: Vec2) -> Vec2 {
        Vec2 {
            x: saturate(self.x + other.x) as i32,
            y: saturate(self.y + other.y) as i32,
        }
    }

    /// Component-wise difference, each component pinned to the unit range.
    pub open spec fn spec_minus(self, other: Vec2) -> Vec2 {
        Vec2 {
            x: saturate(self.x - other.x) as i32,
            y: saturate(self.y - other.y) as i32,
        }
    }

    /// Both components multiplied by `k`, each pinned to the unit range.
    pub open spec fn spec_scaled(self, k: int) -> Vec2 {
        Vec2 { x: saturate(self.x * k) as i32, y: saturate(self.y * k) as i32 }
    }

    pub fn new(x: i32, y: i32) -> (v: Vec2)
        ensures
            v == (Vec2 { x, y }),
    {
        Vec2 { x, y }
    }

    #[verifier::when_used_as_spec(spec_zero)]
    pub fn zero() -> (v: Vec2)
        ensures
            v == Vec2::spec_zero(),
    {
        Vec2 { x: 0, y: 0 }
    }

    /// Both components set to `v`.
    pub fn splat(v: i32) -> (r: Vec2)
        ensures
            r == (Vec2 { x: v, y: v }),
    {
        Vec2 { x: v, y: v }
    }

    #[verifier::when_used_as_spec(spec_plus)]
    pub fn plus(self, other: Vec2) -> (r: Vec2)
        ensures
            r == self.spec_plus(other),
    {
        Vec2 {
            x: to_unit(self.x as i128 + other.x as i128),
            y: to_unit(self.y as i128 + other.y as i128),
        }
    }

    #[verifier::when_used_as_spec(spec_minus)]
    pub fn minus(self, other: Vec2) -> (r: Vec2)
        ensures
            r == self.spec_minus(other),
    {
        Vec2 {
            x: to_unit(self.x as i128 - other.x as i128),
            y: to_unit(self.y as i128 - other.y as i128),
        }
    }

    /// Both components multiplied by a small factor.
    pub fn scaled(self, k: i32) -> (r: Vec2)
        ensures
            r == self.spec_scaled(k as int),
    {
        assert(-0x4000_0000_0000_0000 <= self.x * k <= 0x4000_0000_0000_0000) by (nonlinear_arith)
            requires
                -0x8000_0000 <= self.x <= 0x7fff_ffff,
                -0x8000_0000 <= k <= 0x7fff_ffff,
        ;
        assert(-0x4000_0000_0000_0000 <= self.y * k <= 0x4000_0000_0000_0000) by (nonlinear_arith)
            requires
                -0x8000_0000 <= self.y <= 0x7fff_ffff,
                -0x8000_0000 <= k <= 0x7fff_ffff,
        ;
        Vec2 {
            x: to_unit(self.x as i128 * k as i128),
            y: to_unit(self.y as i128 * k as i128),
        }
    }
}

/// A part of what was shared out is no more than what there was to share:
/// `k` shares of `total / parts` with `k <= parts`.
pub proof fn lemma_share_bounded(total: int, parts: int, k: int)
    requires
        0 <= total,
        0 < parts,
        0 <= k <= parts,
    ensures
        0 <= total / parts <= total,
        0 <= (total / parts) * k <= total,
        0 <= k * (total / parts) <= total,
{
    let q = total / parts;
    lemma_div_pos_is_pos(total, parts);
    lemma_fundamental_div_mod(total, parts);
    lemma_mod_pos_bound(total, parts);
    assert(parts * q <= total);
    assert(q * k <= parts * q) by (nonlinear_arith)
        requires
            0 <= q,
            0 <= k <= parts,
    ;
    assert(q * k >= 0) by (nonlinear_arith)
        requires
            0 <= q,
            0 <= k,
    ;
    assert(q <= parts * q) by (nonlinear_arith)
        requires
            0 <= q,
            1 <= parts,
    ;
    assert(k * q == q * k) by (nonlinear_arith);
}

/// A product of bounded factors is bounded.
pub proof fn lemma_product_bounded(a: int, a_max: int, b: int, b_max: int)
    requires
        -a_max <= a <= a_max,
        -b_max <= b <= b_max,
    ensures
        -(a_max * b_max) <= a * b <= a_max * b_max,
{
    assert(-(a_max * b_max) <= a * b <= a_max * b_max) by (nonlinear_arith)
        requires
            -a_max <= a <= a_max,
            -b_max <= b <= b_max,
    ;
}

} // verus!
