use vstd::prelude::*;
use crate::complex::{
    div_trunc, div_trunc_i128, escaped, lemma_div_trunc_bound, lemma_div_trunc_zero,
    lemma_mul_bound, Complex, COMPONENT_LIMIT, COORD_LIMIT, SCALE,
};

verus! {

/// The real part of one orbit step `z² + c` in fixed point: each product of
/// two coordinates is scaled back down by a truncating division.
pub open spec fn step_re(zre: int, zim: int, cre: int) -> int {
    div_trunc(zre * zre - zim * zim, SCALE as int) + cre
}

/// The imaginary part of one orbit step `z² + c` in fixed point.
pub open spec fn step_im(zre: int, zim: int, cim: int) -> int {
    div_trunc(2 * (zre * zim), SCALE as int) + cim
}

/// The orbit of `c` under `z ↦ z² + c` starting from zero: the fixed-point
/// components of `z_n`.
pub open spec fn orbit(cre: int, cim: int, n: nat) -> (int, int)
    decreases n,
{
    if n == 0 {
        (0int, 0int)
    } else {
        let prev = orbit(cre, cim, (n - 1) as nat);
        (step_re(prev.0, prev.1, cre), step_im(prev.0, prev.1, cim))
    }
}

/// The orbit of `c` leaves the escape radius at 0-based iteration `i`: the
/// squared-magnitude test on `z_{i+1}` succeeds.
pub open spec fn escaped_at(cre: int, cim: int, i: nat) -> bool {
    escaped(orbit(cre, cim, i + 1).0, orbit(cre, cim, i + 1).1)
}

/// The least iteration index below `n` at which the orbit of `c` escapes, or
/// `None` if the orbit stays within the radius through all `n` iterations.
pub open spec fn first_escape(cre: int, cim: int, n: nat) -> Option<nat>
    decreases n,
{
    if n == 0 {
        None
    } else {
        match first_escape(cre, cim, (n - 1) as nat) {
            Some(i) => Some(i),
            None => if escaped_at(cre, cim, (n - 1) as nat) {
                Some((n - 1) as nat)
            } else {
                None
            },
        }
    }
}

/// One orbit step `z² + c` in fixed point, on a `z` still within the escape
/// radius and a `c` within the coordinate range.
pub fn orbit_step(z: Complex, c: Complex) -> (r: Complex)
    requires
        -2 * SCALE <= z.re <= 2 * SCALE,
        -2 * SCALE <= z.im <= 2 * SCALE,
        c.in_range(),
    ensures
        r.re == step_re(z.re as int, z.im as int, c.re as int),
        r.im == step_im(z.re as int, z.im as int, c.im as int),
        -(COORD_LIMIT + 8 * SCALE) <= r.re <= COORD_LIMIT + 8 * SCALE,
        -(COORD_LIMIT + 8 * SCALE) <= r.im <= COORD_LIMIT + 8 * SCALE,
{
    proof {
        lemma_mul_bound(z.re as int, 2 * (SCALE as int), z.re as int, 2 * (SCALE as int));
        lemma_mul_bound(z.im as int, 2 * (SCALE as int), z.im as int, 2 * (SCALE as int));
        lemma_mul_bound(z.re as int, 2 * (SCALE as int), z.im as int, 2 * (SCALE as int));
        assert(2 * (SCALE as int) * (2 * (SCALE as int)) == 4 * (SCALE as int) * (SCALE as int))
            by (nonlinear_arith);
        lemma_div_trunc_bound(
            (z.re as int) * (z.re as int) - (z.im as int) * (z.im as int),
            SCALE as int,
            8 * (SCALE as int),
        );
        lemma_div_trunc_bound(2 * ((z.re as int) * (z.im as int)), SCALE as int, 8 * (SCALE as int));
    }
    let zre: i128 = z.re as i128;
    let zim: i128 = z.im as i128;
    let sq_diff: i128 = zre * zre - zim * zim;
    let cross: i128 = 2 * (zre * zim);
    let re_q: i128 = div_trunc_i128(sq_diff, SCALE as i128);
    let im_q: i128 = div_trunc_i128(cross, SCALE as i128);
    let re: i64 = (re_q + (c.re as i128)) as i64;
    let im: i64 = (im_q + (c.im as i128)) as i64;
    Complex { re, im }
}

/// Once the orbit is known not to escape before iteration `n` but to escape
/// at `n`, the first escape under any larger bound `m` is `n`.
pub proof fn lemma_first_escape_found(cre: int, cim: int, n: nat, m: nat)
    requires
        first_escape(cre, cim, n) is None,
        escaped_at(cre, cim, n),
        n < m,
    ensures
        first_escape(cre, cim, m) == Some(n),
    decreases m,
{
    if m > n + 1 {
        lemma_first_escape_found(cre, cim, n, (m - 1) as nat);
    }
}

/// Iterate `z ↦ z² + c` from zero up to `max_iter` times and return the
/// 0-based index of the first iteration whose result lies outside the escape
/// radius, or `None` if the bound is exhausted without an escape.
pub fn escape_time(c: Complex, max_iter: u32) -> (r: Option<u32>)
    requires
        c.in_range(),
    ensures
        match r {
            Some(i) => i < max_iter && first_escape(c.re as int, c.im as int, max_iter as nat)
                == Some(i as nat),
            None => first_escape(c.re as int, c.im as int, max_iter as nat) is None,
        },
{
    let mut z = Complex { re: 0, im: 0 };
    let mut i: u32 = 0;
    while i < max_iter
        invariant
            i <= max_iter,
            c.in_range(),
            z.re as int == orbit(c.re as int, c.im as int, i as nat).0,
            z.im as int == orbit(c.re as int, c.im as int, i as nat).1,
            first_escape(c.re as int, c.im as int, i as nat) is None,
            (z.re as int) * (z.re as int) + (z.im as int) * (z.im as int)
                <= 4 * (SCALE as int) * (SCALE as int),
        decreases max_iter - i,
    {
        proof {
            assert(2 * (SCALE as int) * (2 * (SCALE as int)) == 4 * (SCALE as int) * (
            SCALE as int)) by (nonlinear_arith);
            lemma_component_bound(z.re as int, z.im as int, 2 * (SCALE as int));
        }
        z = orbit_step(z, c);
        if z.has_escaped() {
            proof {
                assert(escaped_at(c.re as int, c.im as int, i as nat));
                lemma_first_escape_found(c.re as int, c.im as int, i as nat, max_iter as nat);
            }
            return Some(i);
        }
        i = i + 1;
    }
    None
}

/// Both components are bounded by the radius of a bounded squared magnitude:
/// `re² + im² <= b²` gives `|re| <= b` and `|im| <= b`.
pub proof fn lemma_component_bound(re: int, im: int, b: int)
    by (nonlinear_arith)
    requires
        0 <= b,
        re * re + im * im <= b * b,
    ensures
        -b <= re <= b,
        -b <= im <= b,
{
}

/// A point already outside the escape radius escapes at iteration 0: the
/// first step from zero lands exactly on `c`, so the very first test fires.
pub proof fn lemma_escapes_at_zero(c: Complex, n: nat)
    requires
        escaped(c.re as int, c.im as int),
        n >= 1,
    ensures
        first_escape(c.re as int, c.im as int, n) == Some(0nat),
{
    let cre = c.re as int;
    let cim = c.im as int;
    lemma_div_trunc_zero(SCALE as int);
    reveal_with_fuel(orbit, 2);
    assert(orbit(cre, cim, 1) == (step_re(0, 0, cre), step_im(0, 0, cim)));
    assert(step_re(0, 0, cre) == cre);
    assert(step_im(0, 0, cim) == cim);
    assert(escaped_at(cre, cim, 0));
    lemma_first_escape_found(cre, cim, 0, n);
}

/// The origin is a fixed point of the map: its orbit never leaves zero.
pub proof fn lemma_origin_orbit(n: nat)
    ensures
        orbit(0, 0, n) == (0int, 0int),
    decreases n,
{
    if n > 0 {
        lemma_origin_orbit((n - 1) as nat);
        lemma_div_trunc_zero(SCALE as int);
        assert(orbit(0, 0, n) == (step_re(0, 0, 0), step_im(0, 0, 0)));
        assert(step_re(0, 0, 0) == 0);
        assert(step_im(0, 0, 0) == 0);
    }
}

/// The point `0 + 0i` never escapes, whatever the iteration bound.
pub proof fn lemma_origin_never_escapes(n: nat)
    ensures
        first_escape(0, 0, n) is None,
    decreases n,
{
    if n > 0 {
        lemma_origin_never_escapes((n - 1) as nat);
        lemma_origin_orbit(n);
        assert(!escaped_at(0, 0, (n - 1) as nat));
    }
}

} // verus!
