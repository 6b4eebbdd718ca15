use vstd::prelude::*;
use vstd::arithmetic::div_mod::{
    lemma_div_is_ordered, lemma_div_multiples_vanish, lemma_div_of0, lemma_div_pos_is_pos,
};

verus! {

/// Fixed-point unit: an `i64` coordinate `x` stands for the real number `x / SCALE`.
pub const SCALE: i64 = 65536;

/// Largest coordinate magnitude, in fixed-point units, that the library
/// accepts for a point or a viewport corner. It keeps every intermediate
/// product of the executable arithmetic inside the 128-bit range.
pub const COORD_LIMIT: i64 = 0x100_0000_0000;

/// Magnitude bound under which squaring and summing two components cannot
/// overflow the 128-bit intermediates of `Complex::has_escaped`.
pub const COMPONENT_LIMIT: i64 = 0x2000_0000_0000_0000;

/// A point of the complex plane: the value `re / SCALE + (im / SCALE) i`.
#[derive(Clone, Copy, PartialEq, Eq, Structural, Debug)]
pub struct Complex {
    pub re: i64,
    pub im: i64,
}

/// Division rounded toward zero, the rounding every fixed-point quotient of
/// this library uses. (The spec-level `/` rounds a negative dividend toward
/// negative infinity instead.)
pub open spec fn div_trunc(x: int, d: int) -> int {
    if x >= 0 {
        x / d
    } else {
        -((-x) / d)
    }
}

/// The point `(re / SCALE, im / SCALE)` lies outside the escape radius 2:
/// `|z|² > 4`, which in fixed-point units is `re² + im² > 4·SCALE²`.
pub open spec fn escaped(re: int, im: int) -> bool {
    re * re + im * im > 4 * (SCALE as int) * (SCALE as int)
}

impl Complex {
    /// Both components lie within the accepted coordinate range.
    pub open spec fn in_range(self) -> bool {
        &&& -COORD_LIMIT <= self.re <= COORD_LIMIT
        &&& -COORD_LIMIT <= self.im <= COORD_LIMIT
    }

    /// Whether this point lies outside the escape radius, by the exact
    /// squared-magnitude comparison `re² + im² > 4·SCALE²`.
    pub fn has_escaped(&self) -> (r: bool)
        requires
            -COMPONENT_LIMIT <= self.re <= COMPONENT_LIMIT,
            -COMPONENT_LIMIT <= self.im <= COMPONENT_LIMIT,
        ensures
            r == escaped(self.re as int, self.im as int),
    {
        proof {
            lemma_mul_bound(
                self.re as int,
                COMPONENT_LIMIT as int,
                self.re as int,
                COMPONENT_LIMIT as int,
            );
            lemma_mul_bound(
                self.im as int,
                COMPONENT_LIMIT as int,
                self.im as int,
                COMPONENT_LIMIT as int,
            );
        }
        let re2: i128 = (self.re as i128) * (self.re as i128);
        let im2: i128 = (self.im as i128) * (self.im as i128);
        re2 + im2 > 4 * (SCALE as i128) * (SCALE as i128)
    }
}

/// Bounds on both factors bound the product: `|a| <= b` and `|c| <= d`
/// give `|a·c| <= b·d`.
pub proof fn lemma_mul_bound(a: int, b: int, c: int, d: int)
    by (nonlinear_arith)
    requires
        -b <= a <= b,
        -d <= c <= d,
    ensures
        -(b * d) <= a * c <= b * d,
{
}

/// Truncating division by a positive divisor keeps a symmetric bound:
/// `|x| <= b·d` gives `|div_trunc(x, d)| <= b`.
pub proof fn lemma_div_trunc_bound(x: int, d: int, b: int)
    requires
        1 <= d,
        0 <= b,
        -(b * d) <= x <= b * d,
    ensures
        -b <= div_trunc(x, d) <= b,
{
    if x >= 0 {
        lemma_div_pos_is_pos(x, d);
        lemma_div_is_ordered(x, b * d, d);
        lemma_div_multiples_vanish(b, d);
        assert(b * d == d * b) by (nonlinear_arith);
    } else {
        lemma_div_pos_is_pos(-x, d);
        lemma_div_is_ordered(-x, b * d, d);
        lemma_div_multiples_vanish(b, d);
        assert(b * d == d * b) by (nonlinear_arith);
    }
}

/// Truncating division of an exact multiple gives back the factor:
/// `div_trunc(d·x, d) == x`.
pub proof fn lemma_div_trunc_exact(x: int, d: int)
    requires
        1 <= d,
    ensures
        div_trunc(d * x, d) == x,
{
    if x >= 0 {
        assert(d * x >= 0) by (nonlinear_arith)
            requires
                1 <= d,
                0 <= x,
        ;
        lemma_div_multiples_vanish(x, d);
    } else {
        assert(d * x < 0) by (nonlinear_arith)
            requires
                1 <= d,
                x < 0,
        ;
        assert(-(d * x) == d * (-x)) by (nonlinear_arith);
        lemma_div_multiples_vanish(-x, d);
    }
}

/// An interpolation offset stays within its span: for `0 <= c <= w` the
/// quotient `div_trunc(c·delta, w)` lies between `0` and `delta`.
pub proof fn lemma_interp_offset_range(c: int, w: int, delta: int)
    requires
        1 <= w,
        0 <= c <= w,
    ensures
        delta >= 0 ==> 0 <= div_trunc(c * delta, w) <= delta,
        delta < 0 ==> delta <= div_trunc(c * delta, w) <= 0,
{
    if delta >= 0 {
        assert(0 <= c * delta <= w * delta) by (nonlinear_arith)
            requires
                0 <= c <= w,
                delta >= 0,
        ;
        lemma_div_pos_is_pos(c * delta, w);
        lemma_div_is_ordered(c * delta, w * delta, w);
        lemma_div_multiples_vanish(delta, w);
        assert(w * delta == delta * w) by (nonlinear_arith);
    } else {
        assert(-(c * delta) == c * (-delta)) by (nonlinear_arith);
        assert(0 <= c * (-delta) <= w * (-delta)) by (nonlinear_arith)
            requires
                0 <= c <= w,
                delta < 0,
        ;
        if c * delta == 0 {
            lemma_div_of0(w);
        } else {
            lemma_div_pos_is_pos(c * (-delta), w);
            lemma_div_is_ordered(c * (-delta), w * (-delta), w);
            lemma_div_multiples_vanish(-delta, w);
            assert(w * (-delta) == (-delta) * w) by (nonlinear_arith);
        }
    }
}

/// Truncating division of zero is zero.
pub proof fn lemma_div_trunc_zero(d: int)
    requires
        1 <= d,
    ensures
        div_trunc(0, d) == 0,
{
    lemma_div_of0(d);
}

/// Truncating division on 128-bit intermediates, for a positive divisor.
pub fn div_trunc_i128(x: i128, d: i128) -> (q: i128)
    requires
        1 <= d,
        i128::MIN < x,
    ensures
        q == div_trunc(x as int, d as int),
{
    if x >= 0 {
        proof {
            lemma_div_pos_is_pos(x as int, d as int);
            vstd::arithmetic::div_mod::lemma_div_nonincreasing(x as int, d as int);
        }
        ((x as u128) / (d as u128)) as i128
    } else {
        let m: u128 = (-x) as u128;
        proof {
            lemma_div_pos_is_pos(m as int, d as int);
            vstd::arithmetic::div_mod::lemma_div_nonincreasing(m as int, d as int);
        }
        -((m / (d as u128)) as i128)
    }
}

} // verus!
