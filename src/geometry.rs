use vstd::prelude::*;
use rand::rngs::StdRng;

use crate::random::random_in;

verus! {

/// A point on the canvas, in whole pixels.
///
/// The origin is the top-left corner and `y` grows downwards, so the "bottom"
/// of a box has the larger `y`.
#[derive(Clone, Copy, Debug, PartialEq, Eq, Structural)]
pub struct Point2d {
    /// Horizontal coordinate.
    pub x: i64,
    /// Vertical coordinate, growing downwards.
    pub y: i64,
}

/// How the text of a block is turned on the canvas.
#[derive(Clone, Copy, Debug, PartialEq, Eq, Structural)]
pub enum Orientation {
    /// No rotation; the anchor is the bottom-left corner.
    Horizontal,
    /// Turned a quarter clockwise, text running downwards; the anchor is the
    /// top-left corner of the box.
    Vertical90,
    /// Turned a quarter the other way, text running upwards; the anchor is the
    /// bottom-right corner of the box.
    Vertical270,
}

impl Orientation {
    /// The orientation that the draw `i` stands for.
    pub fn from_index(i: i64) -> (o: Orientation)
        requires
            0 <= i < 3,
        ensures
            o == Orientation::from_index_spec(i),
    {
        if i == 0 {
            Orientation::Horizontal
        } else if i == 1 {
            Orientation::Vertical90
        } else {
            Orientation::Vertical270
        }
    }

    /// One of the three orientations, each drawn with equal chance: the one
    /// that `from_index` gives for a draw from `0..3`.
    pub fn at_random(rng: &mut StdRng) -> (o: Orientation)
        ensures
            exists|i: i64| 0 <= i < 3 && o == #[trigger] Orientation::from_index_spec(i),
    {
        let i = random_in(rng, 0, 3);
        Orientation::from_index(i)
    }

    /// The orientation that the draw `i` in `0..3` stands for: 0 is
    /// horizontal, 1 runs downwards, 2 runs upwards.
    pub open spec fn from_index_spec(i: i64) -> Orientation {
        if i == 0 {
            Orientation::Horizontal
        } else if i == 1 {
            Orientation::Vertical90
        } else {
            Orientation::Vertical270
        }
    }
}

/// The floor of the square root of `x`.
pub open spec fn isqrt(x: nat) -> nat
    decreases x,
{
    if x == 0 {
        0
    } else {
        let r = isqrt((x - 1) as nat);
        if (r + 1) * (r + 1) <= x {
            r + 1
        } else {
            r
        }
    }
}

/// `isqrt(x)` squared is at most `x`, and its successor squared exceeds `x`.
pub proof fn lemma_isqrt(x: nat)
    ensures
        isqrt(x) * isqrt(x) <= x < (isqrt(x) + 1) * (isqrt(x) + 1),
    decreases x,
{
    if x > 0 {
        lemma_isqrt((x - 1) as nat);
        let r = isqrt((x - 1) as nat);
        if (r + 1) * (r + 1) <= x {
            assert(isqrt(x) == r + 1);
            assert(x < (r + 2) * (r + 2)) by (nonlinear_arith)
                requires
                    x - 1 < (r + 1) * (r + 1),
            ;
            assert((r + 1) + 1 == r + 2);
        } else {
            assert(isqrt(x) == r);
        }
    } else {
        assert(isqrt(0) == 0);
        assert((0nat + 1) * (0nat + 1) == 1) by (nonlinear_arith);
    }
}

/// Only `isqrt(x)` lies between those two bounds.
pub proof fn lemma_isqrt_unique(x: nat, r: nat)
    requires
        r * r <= x < (r + 1) * (r + 1),
    ensures
        r == isqrt(x),
{
    lemma_isqrt(x);
    let s = isqrt(x);
    if r < s {
        assert((r + 1) * (r + 1) <= s * s) by (nonlinear_arith)
            requires
                r + 1 <= s,
        ;
    } else if r > s {
        assert((s + 1) * (s + 1) <= r * r) by (nonlinear_arith)
            requires
                s + 1 <= r,
        ;
    }
}

/// The floor of the square root, for the values that label sizing needs.
pub fn floor_sqrt(x: u64) -> (r: u64)
    requires
        x < 0x4_0000_0000,
    ensures
        r as nat == isqrt(x as nat),
{
    let mut lo: u64 = 0;
    let mut hi: u64 = 0x4_0000;
    while hi - lo > 1
        invariant
            lo < hi <= 0x4_0000,
            lo * lo <= x < hi * hi,
        decreases hi - lo,
    {
        let mid: u64 = lo + (hi - lo) / 2;
        assert(mid * mid <= 0x4_0000 * 0x4_0000) by (nonlinear_arith)
            requires
                mid <= 0x4_0000,
        ;
        if mid * mid <= x {
            lo = mid;
        } else {
            hi = mid;
        }
    }
    proof {
        assert(hi == lo + 1);
        lemma_isqrt_unique(x as nat, lo as nat);
    }
    lo
}

} // verus!
